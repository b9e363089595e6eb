//! Which items each test covered.
use crate::anchors::{listed_hits, plain_hits_list};
use crate::hit_maps::HitMaps;
use crate::instrumented::{consistent, InstrumentedCoverageItemIds, InstrumentedCoverageTagIndex};
use crate::item_hits::{capped, hits_at, item_hits, known_tags, map_views, resolved_hits, totals_fit, ItemHit};
use crate::items::{CoverageItem, CoverageItemKind};
use crate::order::{precedes, precedes_irreflexive, precedes_transitive, Keyed};
use crate::report::{make_text_key, ContractId, CoverageReport, SourceEntry};
use crate::table::{ascending, by_key, by_key_of_entry, Table};
use crate::tag_table::TagTable;
use crate::tags::InstrumentedHitMaps;
use crate::paths::{keys_tell_paths, make_path_key, path_key, same_path};
use crate::text::{push_text_key, text_key, text_key_injective};
use vstd::prelude::*;
use vstd::string::*;

verus! {

/// What kind of item was covered.
#[derive(Clone, Copy, Debug, PartialEq, Eq, Structural)]
pub enum AttributionKind {
    Branch,
    Function,
    Line,
    Statement,
}

/// An item of a source and how often a test hit it.
#[derive(Clone, Copy, Debug)]
pub struct AttributionItem<'a> {
    pub source: &'a str,
    pub contract: &'a str,
    pub kind: AttributionKind,
    /// The first line, with the first line of the source as line one.
    pub line_start: u32,
    /// The line behind the last one.
    pub line_end: u32,
    pub byte_start: u32,
    pub byte_end: u32,
    pub hits: u32,
    pub function: Option<&'a str>,
    pub branch_id: Option<u32>,
    pub path_id: Option<u32>,
}

impl AttributionKind {
    /// The name of the kind.
    pub open spec fn spec_name(&self) -> Seq<char> {
        match *self {
            AttributionKind::Branch => "branch"@,
            AttributionKind::Function => "function"@,
            AttributionKind::Line => "line"@,
            AttributionKind::Statement => "statement"@,
        }
    }

    /// The place of the kind in the alphabetical order of the names.
    pub open spec fn rank(&self) -> u64 {
        match *self {
            AttributionKind::Branch => 0,
            AttributionKind::Function => 1,
            AttributionKind::Line => 2,
            AttributionKind::Statement => 3,
        }
    }

    /// The name of the kind.
    pub fn name(&self) -> (name: &'static str)
        ensures
            name@ == self.spec_name(),
    {
        match self {
            AttributionKind::Branch => "branch",
            AttributionKind::Function => "function",
            AttributionKind::Line => "line",
            AttributionKind::Statement => "statement",
        }
    }
}

/// The fields of an item that depend on its kind.
pub open spec fn kind_fields(kind: CoverageItemKind) -> (AttributionKind, Option<Seq<char>>, Option<u32>, Option<u32>) {
    match kind {
        CoverageItemKind::Line => (AttributionKind::Line, None, None, None),
        CoverageItemKind::Statement => (AttributionKind::Statement, None, None, None),
        CoverageItemKind::Branch { branch_id, path_id, .. } => (
            AttributionKind::Branch,
            None,
            Some(branch_id),
            Some(path_id),
        ),
        CoverageItemKind::Function { name } => (AttributionKind::Function, Some(name@), None, None),
    }
}

/// The fields of an item that depend on its kind.
pub fn coverage_item_kind_fields(kind: &CoverageItemKind) -> (fields: (
    AttributionKind,
    Option<&str>,
    Option<u32>,
    Option<u32>,
))
    ensures
        (fields.0, opt_view(fields.1), fields.2, fields.3) == kind_fields(*kind),
{
    match kind {
        CoverageItemKind::Line => (AttributionKind::Line, None, None, None),
        CoverageItemKind::Statement => (AttributionKind::Statement, None, None, None),
        CoverageItemKind::Branch { branch_id, path_id, .. } => (
            AttributionKind::Branch,
            None,
            Some(*branch_id),
            Some(*path_id),
        ),
        CoverageItemKind::Function { name } => (AttributionKind::Function, Some(name.as_str()), None, None),
    }
}

/// The entry of an item of a source, with its hits left aside.
pub open spec fn describes(entry: AttributionItem, source: Seq<char>, item: CoverageItem) -> bool {
    &&& entry.source@ == source
    &&& entry.contract@ == item.loc.contract_name@
    &&& (entry.kind, opt_view(entry.function), entry.branch_id, entry.path_id) == kind_fields(item.kind)
    &&& entry.line_start == item.loc.lines.start
    &&& entry.line_end == item.loc.lines.end
    &&& entry.byte_start == item.loc.bytes.start
    &&& entry.byte_end == item.loc.bytes.end
}

/// The key of an optional text: none comes before any.
pub open spec fn opt_text_key(text: Option<Seq<char>>) -> Seq<u64> {
    match text {
        Some(text) => seq![1u64] + text_key(text),
        None => seq![0u64],
    }
}

/// The key of an optional number: none comes before any.
pub open spec fn opt_number_key(n: Option<u32>) -> Seq<u64> {
    match n {
        Some(n) => seq![1u64, n as u64],
        None => seq![0u64],
    }
}

/// The characters of an optional text.
pub open spec fn opt_view(text: Option<&str>) -> Option<Seq<char>> {
    match text {
        Some(text) => Some(text@),
        None => None,
    }
}

/// The numbers of an item's key.
pub open spec fn number_keys(item: AttributionItem) -> Seq<u64> {
    seq![
        item.kind.rank(),
        item.line_start as u64,
        item.line_end as u64,
        item.byte_start as u64,
        item.byte_end as u64,
    ]
}

/// Two entries stand for the same item: they agree in everything but the hits.
pub open spec fn same_item(a: AttributionItem, b: AttributionItem) -> bool {
    &&& a.source@ == b.source@
    &&& a.contract@ == b.contract@
    &&& a.kind == b.kind
    &&& a.line_start == b.line_start
    &&& a.line_end == b.line_end
    &&& a.byte_start == b.byte_start
    &&& a.byte_end == b.byte_end
    &&& opt_view(a.function) == opt_view(b.function)
    &&& a.branch_id == b.branch_id
    &&& a.path_id == b.path_id
}

/// Items are ordered by source, contract, name of the kind, lines, bytes, function, branch and path.
impl<'a> Keyed for AttributionItem<'a> {
    open spec fn sort_key(&self) -> Seq<u64> {
        text_key(self.source@) + text_key(self.contract@) + number_keys(*self) + opt_text_key(
            opt_view(self.function),
        ) + opt_number_key(self.branch_id) + opt_number_key(self.path_id)
    }

    fn make_key(&self) -> (key: Vec<u64>) {
        let mut key: Vec<u64> = Vec::new();
        push_text_key(&mut key, self.source);
        push_text_key(&mut key, self.contract);
        let rank: u64 = match self.kind {
            AttributionKind::Branch => 0,
            AttributionKind::Function => 1,
            AttributionKind::Line => 2,
            AttributionKind::Statement => 3,
        };
        let ghost texts = key@;
        key.push(rank);
        key.push(self.line_start as u64);
        key.push(self.line_end as u64);
        key.push(self.byte_start as u64);
        key.push(self.byte_end as u64);
        assert(key@ =~= texts + number_keys(*self));
        let ghost numbers = key@;
        match &self.function {
            Some(name) => {
                key.push(1);
                push_text_key(&mut key, name);
            },
            None => {
                key.push(0);
            },
        }
        assert(key@ =~= numbers + opt_text_key(opt_view(self.function)));
        push_opt_number(&mut key, self.branch_id);
        push_opt_number(&mut key, self.path_id);
        assert(key@ =~= self.sort_key());
        key
    }
}

fn push_opt_number(key: &mut Vec<u64>, n: Option<u32>)
    ensures
        final(key)@ == old(key)@ + opt_number_key(n),
{
    match n {
        Some(n) => {
            key.push(1);
            key.push(n as u64);
        },
        None => {
            key.push(0);
        },
    }
    assert(key@ =~= old(key)@ + opt_number_key(n));
}

proof fn opt_number_key_injective(a: Option<u32>, x: Seq<u64>, b: Option<u32>, y: Seq<u64>)
    requires
        opt_number_key(a) + x == opt_number_key(b) + y,
    ensures
        a == b,
        x == y,
{
    let left = opt_number_key(a) + x;
    let right = opt_number_key(b) + y;
    assert(left[0] == right[0]);
    assert(left[0] == (if a is Some { 1u64 } else { 0 }));
    assert(right[0] == (if b is Some { 1u64 } else { 0 }));
    if a is Some {
        assert(left[1] == a->0 && right[1] == b->0);
        assert(left.skip(2) =~= x && right.skip(2) =~= y);
    } else {
        assert(left.skip(1) =~= x && right.skip(1) =~= y);
    }
}

proof fn opt_text_key_injective(a: Option<Seq<char>>, x: Seq<u64>, b: Option<Seq<char>>, y: Seq<u64>)
    requires
        opt_text_key(a) + x == opt_text_key(b) + y,
    ensures
        a == b,
        x == y,
{
    let left = opt_text_key(a) + x;
    let right = opt_text_key(b) + y;
    assert(left[0] == right[0]);
    assert(left[0] == (if a is Some { 1u64 } else { 0 }));
    assert(right[0] == (if b is Some { 1u64 } else { 0 }));
    if a is Some {
        assert(left.skip(1) =~= text_key(a->0) + x);
        assert(right.skip(1) =~= text_key(b->0) + y);
        text_key_injective(a->0, x, b->0, y);
    } else {
        assert(left.skip(1) =~= x && right.skip(1) =~= y);
    }
}

proof fn joins(a: Seq<u64>, b: Seq<u64>, c: Seq<u64>)
    ensures
        a + b + c == a + (b + c),
{
    assert(a + b + c =~= a + (b + c));
}

proof fn attribution_key_nests(item: AttributionItem)
    ensures
        item.sort_key() == text_key(item.source@) + (text_key(item.contract@) + (number_keys(item) + (opt_text_key(
            opt_view(item.function),
        ) + (opt_number_key(item.branch_id) + opt_number_key(item.path_id))))),
{
    let s = text_key(item.source@);
    let c = text_key(item.contract@);
    let n = number_keys(item);
    let f = opt_text_key(opt_view(item.function));
    let b = opt_number_key(item.branch_id);
    let p = opt_number_key(item.path_id);
    joins(s + c + n + f, b, p);
    joins(s + c + n, f, b + p);
    joins(s + c, n, f + (b + p));
    joins(s, c, n + (f + (b + p)));
}

/// Entries with the same key stand for the same item.
pub proof fn attribution_key_injective(a: AttributionItem, b: AttributionItem)
    requires
        a.sort_key() == b.sort_key(),
    ensures
        same_item(a, b),
{
    let a4 = opt_number_key(a.branch_id) + opt_number_key(a.path_id);
    let b4 = opt_number_key(b.branch_id) + opt_number_key(b.path_id);
    let a3 = opt_text_key(opt_view(a.function)) + a4;
    let b3 = opt_text_key(opt_view(b.function)) + b4;
    let a2 = number_keys(a) + a3;
    let b2 = number_keys(b) + b3;
    let a1 = text_key(a.contract@) + a2;
    let b1 = text_key(b.contract@) + b2;
    attribution_key_nests(a);
    attribution_key_nests(b);
    text_key_injective(a.source@, a1, b.source@, b1);
    text_key_injective(a.contract@, a2, b.contract@, b2);
    assert(a2[0] == b2[0] && a2[1] == b2[1] && a2[2] == b2[2] && a2[3] == b2[3] && a2[4] == b2[4]);
    assert(a2.skip(5) =~= a3 && b2.skip(5) =~= b3);
    opt_text_key_injective(opt_view(a.function), a4, opt_view(b.function), b4);
    opt_number_key_injective(
        a.branch_id,
        opt_number_key(a.path_id),
        b.branch_id,
        opt_number_key(b.path_id),
    );
    assert(opt_number_key(a.path_id) + Seq::<u64>::empty() =~= opt_number_key(a.path_id));
    assert(opt_number_key(b.path_id) + Seq::<u64>::empty() =~= opt_number_key(b.path_id));
    opt_number_key_injective(a.path_id, Seq::empty(), b.path_id, Seq::empty());
}

impl<'a> AttributionItem<'a> {
    /// The entry of an item of a source, without hits.
    pub fn new(source: &'a str, item: &'a CoverageItem) -> (entry: Self)
        ensures
            describes(entry, source@, *item),
            entry.hits == 0,
    {
        let (kind, function, branch_id, path_id) = coverage_item_kind_fields(&item.kind);
        AttributionItem {
            source,
            contract: item.loc.contract_name.as_str(),
            kind,
            line_start: item.loc.lines.start,
            line_end: item.loc.lines.end,
            byte_start: item.loc.bytes.start,
            byte_end: item.loc.bytes.end,
            hits: 0,
            function,
            branch_id,
            path_id,
        }
    }
}

/// The key under which an item of a build is reported, if its source is registered.
pub open spec fn item_key(report: CoverageReport, build: Seq<char>, item: CoverageItem) -> Option<Seq<u64>> {
    match report.path_of(build, item.loc.source_id) {
        Some(path) => Some(key_in(source_name(report, path), item)),
        None => None,
    }
}

/// How a path is written first among the first `n` sources, if one of them has it.
pub open spec fn first_spelling(sources: Seq<SourceEntry>, n: int, key: Seq<u64>) -> Option<Seq<char>>
    decreases n,
{
    if n <= 0 {
        None
    } else {
        match first_spelling(sources, n - 1, key) {
            Some(spelling) => Some(spelling),
            None => if path_key(sources[n - 1].path@) == key { Some(sources[n - 1].path@) } else { None },
        }
    }
}

/// The name of a source: however its path is written, it is named as where the path is registered first.
pub open spec fn source_name(report: CoverageReport, path: Seq<char>) -> Seq<char> {
    match first_spelling(report.sources.entries@, report.sources.entries@.len() as int, path_key(path)) {
        Some(spelling) => spelling,
        None => path,
    }
}

/// A source has one name, however its path is written: the way in which its path is written where it is registered
/// first. A path that is not registered is its own name.
pub proof fn sources_have_one_name(report: CoverageReport, path: Seq<char>, other: Seq<char>)
    ensures
        ({
            let entries = report.sources.entries@;
            let registered = exists|k: int| 0 <= k < entries.len() && same_path((#[trigger] entries[k]).path@, path);
            &&& same_path(source_name(report, path), path)
            &&& registered && same_path(path, other) ==> source_name(report, path) == source_name(report, other)
            &&& registered ==> exists|k: int|
                0 <= k < entries.len() && source_name(report, path) == (#[trigger] entries[k]).path@ && forall|j: int|
                    0 <= j < k ==> !same_path((#[trigger] entries[j]).path@, path)
            &&& !registered ==> source_name(report, path) == path
        }),
{
    let entries = report.sources.entries@;
    let n = entries.len() as int;
    keys_tell_paths(path, other);
    keys_tell_paths(path, path);
    first_spelling_is_registered(entries, n, path);
    if first_spelling(entries, n, path_key(path)) is Some {
        let k = choose|k: int|
            0 <= k < n && first_spelling(entries, n, path_key(path)) == Some((#[trigger] entries[k]).path@) && same_path(
                entries[k].path@,
                path,
            ) && forall|j: int| 0 <= j < k ==> !same_path((#[trigger] entries[j]).path@, path);
        assert(source_name(report, path) == entries[k].path@);
    }
}

proof fn first_spelling_is_registered(entries: Seq<SourceEntry>, n: int, path: Seq<char>)
    requires
        0 <= n <= entries.len(),
    ensures
        ({
            let found = first_spelling(entries, n, path_key(path));
            &&& found is None <==> forall|k: int| 0 <= k < n ==> !same_path((#[trigger] entries[k]).path@, path)
            &&& found is Some ==> exists|k: int|
                0 <= k < n && found == Some((#[trigger] entries[k]).path@) && same_path(entries[k].path@, path)
                    && forall|j: int| 0 <= j < k ==> !same_path((#[trigger] entries[j]).path@, path)
        }),
    decreases n,
{
    if n > 0 {
        first_spelling_is_registered(entries, n - 1, path);
        keys_tell_paths(entries[n - 1].path@, path);
    }
}

/// The key under which an item of a source is reported.
pub open spec fn key_in(source: Seq<char>, item: CoverageItem) -> Seq<u64> {
    let fields = kind_fields(item.kind);
    text_key(source) + text_key(item.loc.contract_name@) + seq![
        fields.0.rank(),
        item.loc.lines.start as u64,
        item.loc.lines.end as u64,
        item.loc.bytes.start as u64,
        item.loc.bytes.end as u64,
    ] + opt_text_key(fields.1) + opt_number_key(fields.2) + opt_number_key(fields.3)
}

/// An entry with the key of an item describes that item.
pub(crate) proof fn key_tells_item(entry: AttributionItem, source: Seq<char>, item: CoverageItem)
    requires
        entry.sort_key() == key_in(source, item),
    ensures
        describes(entry, source, item),
{
    let fields = kind_fields(item.kind);
    let numbers = seq![
        fields.0.rank(),
        item.loc.lines.start as u64,
        item.loc.lines.end as u64,
        item.loc.bytes.start as u64,
        item.loc.bytes.end as u64,
    ];
    let a4 = opt_number_key(entry.branch_id) + opt_number_key(entry.path_id);
    let b4 = opt_number_key(fields.2) + opt_number_key(fields.3);
    let a3 = opt_text_key(opt_view(entry.function)) + a4;
    let b3 = opt_text_key(fields.1) + b4;
    let a2 = number_keys(entry) + a3;
    let b2 = numbers + b3;
    let a1 = text_key(entry.contract@) + a2;
    let b1 = text_key(item.loc.contract_name@) + b2;
    attribution_key_nests(entry);
    let s = text_key(source);
    let c = text_key(item.loc.contract_name@);
    let f = opt_text_key(fields.1);
    let b = opt_number_key(fields.2);
    let p = opt_number_key(fields.3);
    joins(s + c + numbers + f, b, p);
    joins(s + c + numbers, f, b + p);
    joins(s + c, numbers, f + (b + p));
    joins(s, c, numbers + (f + (b + p)));
    assert(key_in(source, item) == text_key(source) + b1);
    text_key_injective(entry.source@, a1, source, b1);
    text_key_injective(entry.contract@, a2, item.loc.contract_name@, b2);
    assert(a2[0] == b2[0] && a2[1] == b2[1] && a2[2] == b2[2] && a2[3] == b2[3] && a2[4] == b2[4]);
    assert(a2.skip(5) =~= a3 && b2.skip(5) =~= b3);
    opt_text_key_injective(opt_view(entry.function), a4, fields.1, b4);
    opt_number_key_injective(entry.branch_id, opt_number_key(entry.path_id), fields.2, opt_number_key(fields.3));
    assert(opt_number_key(entry.path_id) + Seq::<u64>::empty() =~= opt_number_key(entry.path_id));
    assert(opt_number_key(fields.3) + Seq::<u64>::empty() =~= opt_number_key(fields.3));
    opt_number_key_injective(entry.path_id, Seq::empty(), fields.3, Seq::empty());
}

/// One of the first `n` items of a build is reported under the key.
pub open spec fn reported_in(
    report: CoverageReport,
    build: Seq<char>,
    items: Seq<CoverageItem>,
    n: int,
    key: Seq<u64>,
) -> bool {
    exists|i: int| 0 <= i < n && item_key(report, build, #[trigger] items[i]) == Some(key)
}

/// An item of the first `n` builds is reported under the key.
pub open spec fn reported(report: CoverageReport, n: int, key: Seq<u64>) -> bool {
    exists|k: int|
        0 <= k < n && reported_in(
            report,
            (#[trigger] report.analyses.entries@[k]).build_id@,
            report.analyses.entries@[k].analysis.items@,
            report.analyses.entries@[k].analysis.items@.len() as int,
            key,
        )
}

/// The path of a source.
#[derive(Debug)]
pub struct SourcePath {
    pub path: String,
}

impl Keyed for SourcePath {
    open spec fn sort_key(&self) -> Seq<u64> {
        path_key(self.path@)
    }

    fn make_key(&self) -> (key: Vec<u64>) {
        make_path_key(self.path.as_str())
    }
}

/// The name of a source.
#[derive(Debug)]
pub struct SourceName<'a> {
    pub path: &'a str,
}

impl<'a> Keyed for SourceName<'a> {
    open spec fn sort_key(&self) -> Seq<u64> {
        path_key(self.path@)
    }

    fn make_key(&self) -> (key: Vec<u64>) {
        make_path_key(self.path)
    }
}

/// The name with a key in a table, if it is there.
pub open spec fn name_at(names: Map<Seq<u64>, SourceName>, key: Seq<u64>) -> Option<Seq<char>> {
    if names.contains_key(key) { Some(names[key].path@) } else { None }
}

/// The table holds the names of the sources of the report.
pub open spec fn are_names(names: Table<SourceName>, report: CoverageReport) -> bool {
    &&& names.wf()
    &&& forall|key: Seq<u64>| #[trigger]
        name_at(names@, key) == first_spelling(report.sources.entries@, report.sources.entries@.len() as int, key)
}

/// The name of a source.
fn find_name<'a>(names: &Table<SourceName<'a>>, report: &'a CoverageReport, path: &'a str) -> (name: &'a str)
    requires
        are_names(*names, *report),
    ensures
        name@ == source_name(*report, path@),
{
    let key = make_path_key(path);
    let ghost known = name_at(names@, key@);
    match names.find(&key) {
        Some(at) => names.entries[at].path,
        None => path,
    }
}

/// What is reported of all items, each once, in the order of the report.
pub struct AttributionIndex<'a> {
    pub report: &'a CoverageReport,
    /// The names of the sources.
    pub names: Table<SourceName<'a>>,
    pub items: Table<AttributionItem<'a>>,
}

impl<'a> AttributionIndex<'a> {
    /// The index holds what is reported of the items of the report, without hits.
    pub open spec fn wf(&self) -> bool {
        &&& self.report.wf()
        &&& are_names(self.names, *self.report)
        &&& self.items.wf()
        &&& forall|key: Seq<u64>| #[trigger]
            self.items@.contains_key(key) <==> reported(
                *self.report,
                self.report.analyses.entries@.len() as int,
                key,
            )
        &&& forall|key: Seq<u64>| #[trigger] self.items@.contains_key(key) ==> self.items@[key].hits == 0
    }

    /// Builds the index of a report.
    pub fn new(report: &'a CoverageReport) -> (index: Self)
        requires
            report.wf(),
        ensures
            index.wf(),
            *index.report == *report,
    {
        let names = Self::source_paths(report);
        let mut items: Table<AttributionItem<'a>> = Table::new();
        let mut k: usize = 0;
        while k < report.analyses.entries.len()
            invariant
                report.wf(),
                are_names(names, *report),
                k <= report.analyses.entries@.len(),
                items.wf(),
                forall|key: Seq<u64>| #[trigger]
                    items@.contains_key(key) <==> reported(*report, k as int, key),
                forall|key: Seq<u64>| #[trigger] items@.contains_key(key) ==> items@[key].hits == 0,
            decreases report.analyses.entries@.len() - k,
        {
            let entry = &report.analyses.entries[k];
            let all = &entry.analysis.items;
            let mut n: usize = 0;
            while n < all.len()
                invariant
                    report.wf(),
                    are_names(names, *report),
                    n <= all@.len(),
                    items.wf(),
                    forall|key: Seq<u64>| #[trigger]
                        items@.contains_key(key) <==> reported(*report, k as int, key) || reported_in(
                            *report,
                            entry.build_id@,
                            all@,
                            n as int,
                            key,
                        ),
                    forall|key: Seq<u64>| #[trigger] items@.contains_key(key) ==> items@[key].hits == 0,
                decreases all@.len() - n,
            {
                let item = &all[n];
                let ghost before = items@;
                if let Some(path) = report.get_source_path(entry.build_id.as_str(), item.loc.source_id) {
                    let name = find_name(&names, report, path.as_str());
                    let attribution = AttributionItem::new(name, item);
                    let key = attribution.make_key();
                    assert(key@ =~= key_in(name@, *item));
                    if items.find(&key).is_none() {
                        items.put(attribution);
                    }
                    assert(item_key(*report, entry.build_id@, all@[n as int]) == Some(key@));
                    assert(forall|k: Seq<u64>| #[trigger] items@.contains_key(k) <==> before.contains_key(k) || k == key@);
                }
                proof {
                    assert forall|key: Seq<u64>| #[trigger] items@.contains_key(key) <==> reported(
                        *report,
                        k as int,
                        key,
                    ) || reported_in(*report, entry.build_id@, all@, n + 1, key) by {
                        assert(before.contains_key(key) <==> reported(*report, k as int, key) || reported_in(
                            *report,
                            entry.build_id@,
                            all@,
                            n as int,
                            key,
                        ));
                        if reported_in(*report, entry.build_id@, all@, n as int, key) {
                            let i = choose|i: int|
                                0 <= i < n && item_key(*report, entry.build_id@, #[trigger] all@[i]) == Some(key);
                            assert(0 <= i < n + 1 && item_key(*report, entry.build_id@, all@[i]) == Some(key));
                        }
                        if item_key(*report, entry.build_id@, all@[n as int]) == Some(key) {
                            assert(reported_in(*report, entry.build_id@, all@, n + 1, key));
                        }
                    }
                }
                n += 1;
            }
            proof {
                assert forall|key: Seq<u64>| #[trigger] items@.contains_key(key) <==> reported(*report, k + 1, key) by {
                    let own = report.analyses.entries@[k as int];
                    if reported(*report, k as int, key) {
                        let j = choose|j: int|
                            0 <= j < k && reported_in(
                                *report,
                                (#[trigger] report.analyses.entries@[j]).build_id@,
                                report.analyses.entries@[j].analysis.items@,
                                report.analyses.entries@[j].analysis.items@.len() as int,
                                key,
                            );
                        let again = report.analyses.entries@[j];
                        assert(0 <= j < k + 1);
                    }
                    if reported(*report, k + 1, key) && !reported(*report, k as int, key) {
                        let j = choose|j: int|
                            0 <= j < k + 1 && reported_in(
                                *report,
                                (#[trigger] report.analyses.entries@[j]).build_id@,
                                report.analyses.entries@[j].analysis.items@,
                                report.analyses.entries@[j].analysis.items@.len() as int,
                                key,
                            );
                        assert(j == k);
                    }
                }
            }
            k += 1;
        }
        AttributionIndex { report, names, items }
    }

    /// The names of all registered sources, each once, in the order of their paths.
    pub fn source_paths(report: &'a CoverageReport) -> (names: Table<SourceName<'a>>)
        requires
            report.wf(),
        ensures
            are_names(names, *report),
    {
        let mut names: Table<SourceName<'a>> = Table::new();
        let mut k: usize = 0;
        while k < report.sources.entries.len()
            invariant
                k <= report.sources.entries@.len(),
                names.wf(),
                forall|key: Seq<u64>| #[trigger]
                    name_at(names@, key) == first_spelling(report.sources.entries@, k as int, key),
            decreases report.sources.entries@.len() - k,
        {
            let path = report.sources.entries[k].path.as_str();
            let key = make_path_key(path);
            let ghost before = names@;
            if names.find(&key).is_none() {
                names.put(SourceName { path });
            }
            proof {
                assert forall|other: Seq<u64>| #[trigger] name_at(names@, other) == first_spelling(
                    report.sources.entries@,
                    k + 1,
                    other,
                ) by {
                    assert(name_at(before, other) == first_spelling(report.sources.entries@, k as int, other));
                }
            }
            k += 1;
        }
        names
    }

    /// The position of what is reported of an item.
    pub open spec fn id_of(&self, build: Seq<char>, item: CoverageItem, id: int) -> bool {
        &&& 0 <= id < self.items.entries@.len()
        &&& item_key(*self.report, build, item) == Some(self.items.entries@[id].sort_key())
    }

    /// The position of what is reported of an item of a build, if its source is registered.
    pub fn item_id(&self, build_id: &str, item: &CoverageItem) -> (id: Option<usize>)
        requires
            self.wf(),
        ensures
            id is Some ==> self.id_of(build_id@, *item, id->0 as int),
            id is None ==> forall|i: int| !(#[trigger] self.id_of(build_id@, *item, i)),
    {
        match self.report.get_source_path(build_id, item.loc.source_id) {
            Some(path) => {
                let name = find_name(&self.names, self.report, path.as_str());
                let attribution = AttributionItem::new(name, item);
                let key = attribution.make_key();
                assert(key@ =~= key_in(name@, *item));
                let found = self.items.find(&key);
                proof {
                    if found is None {
                        assert forall|i: int| !(#[trigger] self.id_of(build_id@, *item, i)) by {
                            if self.id_of(build_id@, *item, i) {
                                by_key_of_entry(self.items.entries@, i);
                            }
                        }
                    }
                }
                found
            },
            None => None,
        }
    }
}

/// A hit map resolved to the contract that it belongs to.
pub struct ResolvedHitMap {
    pub contract_id: ContractId,
    pub is_deployed_code: bool,
}

/// The contracts that hit maps belong to, by the hash of the code.
pub struct ResolvedHitMaps(pub TagTable<ResolvedHitMap>);

impl View for ResolvedHitMaps {
    type V = Map<Seq<u8>, ResolvedHitMap>;

    open spec fn view(&self) -> Map<Seq<u8>, ResolvedHitMap> {
        self.0@
    }
}

impl ResolvedHitMaps {
    /// The table is well formed.
    pub open spec fn wf(&self) -> bool {
        self.0.wf()
    }

    /// No hit map is resolved.
    pub fn new() -> (resolved: Self)
        ensures
            resolved.wf(),
            resolved@ == Map::<Seq<u8>, ResolvedHitMap>::empty(),
    {
        ResolvedHitMaps(TagTable::new())
    }

    /// Resolves the hit map of a hash.
    pub fn insert(&mut self, hash: [u8; 32], map: ResolvedHitMap)
        requires
            old(self).wf(),
        ensures
            final(self).wf(),
            final(self)@ == old(self)@.insert(hash@, map),
    {
        self.0.insert(hash, map);
    }

    /// The contract that the hit map of a hash belongs to.
    pub fn get(&self, hash: &[u8; 32]) -> (map: Option<&ResolvedHitMap>)
        requires
            self.wf(),
        ensures
            map is Some <==> self@.contains_key(hash@),
            map is Some ==> *map->0 == self@[hash@],
    {
        self.0.get(hash)
    }
}

/// The hit belongs to the item that is reported at the position.
pub open spec fn credited(index: AttributionIndex, hit: ItemHit, id: int) -> bool {
    match index.report.items_of(hit.build_id@) {
        Some(items) => hit.item_id < items.len() && index.id_of(hit.build_id@, items[hit.item_id as int], id),
        None => false,
    }
}

/// The hits of the item that is reported at the position, from the first `n` of a list.
pub open spec fn credit(index: AttributionIndex, list: Seq<ItemHit>, n: int, id: int) -> nat
    decreases n,
{
    if n <= 0 {
        0
    } else {
        credit(index, list, n - 1, id) + (if credited(index, list[n - 1], id) { list[n - 1].hits as nat } else { 0 })
    }
}

/// One of the first `n` hits of a list belongs to the item that is reported at the position.
pub open spec fn touched(index: AttributionIndex, list: Seq<ItemHit>, n: int, id: int) -> bool {
    exists|i: int| 0 <= i < n && credited(index, #[trigger] list[i], id)
}

/// The first `n` items of the index that a list of hits touches, with their hits as far as they can be
/// counted.
pub open spec fn attributed<'a>(index: AttributionIndex<'a>, list: Seq<ItemHit>, n: int) -> Seq<AttributionItem<'a>>
    decreases n,
{
    if n <= 0 {
        Seq::empty()
    } else {
        let before = attributed(index, list, n - 1);
        if touched(index, list, list.len() as int, n - 1) {
            before.push(
                AttributionItem {
                    hits: capped(credit(index, list, list.len() as int, n - 1)) as u32,
                    ..index.items.entries@[n - 1]
                },
            )
        } else {
            before
        }
    }
}

proof fn one_id(index: AttributionIndex, build: Seq<char>, item: CoverageItem, i: int, j: int)
    requires
        index.wf(),
        index.id_of(build, item, i),
        index.id_of(build, item, j),
    ensures
        i == j,
{
    let entries = index.items.entries@;
    precedes_irreflexive(entries[i].sort_key());
    if i < j {
        assert(precedes(entries[i].sort_key(), entries[j].sort_key()));
    } else if j < i {
        assert(precedes(entries[j].sort_key(), entries[i].sort_key()));
    }
}

/// Adds up a list of hits by the items that they belong to.
pub fn attribute<'a>(index: &AttributionIndex<'a>, list: &Vec<ItemHit>) -> (items: Vec<AttributionItem<'a>>)
    requires
        index.wf(),
    ensures
        items@ == attributed(*index, list@, index.items.entries@.len() as int),
{
    let m: usize = index.items.entries.len();
    let mut counts: Vec<u32> = Vec::new();
    let mut seen: Vec<bool> = Vec::new();
    let mut k: usize = 0;
    while k < m
        invariant
            k <= m,
            counts@.len() == k,
            seen@.len() == k,
            forall|id: int| 0 <= id < k ==> #[trigger] counts@[id] == 0,
            forall|id: int| 0 <= id < k ==> !(#[trigger] seen@[id]),
        decreases m - k,
    {
        counts.push(0);
        seen.push(false);
        k += 1;
    }
    let mut n: usize = 0;
    while n < list.len()
        invariant
            index.wf(),
            m == index.items.entries@.len(),
            n <= list@.len(),
            counts@.len() == m,
            seen@.len() == m,
            forall|id: int| 0 <= id < m ==> #[trigger] counts@[id] == capped(credit(*index, list@, n as int, id)),
            forall|id: int| 0 <= id < m ==> #[trigger] seen@[id] == touched(*index, list@, n as int, id),
        decreases list@.len() - n,
    {
        let hit = &list[n];
        let ghost counts0 = counts@;
        let ghost seen0 = seen@;
        let key = make_text_key(hit.build_id.as_str());
        let ghost mut target: Option<int> = None;
        if let Some(at) = index.report.analyses.find(&key) {
            let items = &index.report.analyses.entries[at].analysis.items;
            assert(index.report.items_of(hit.build_id@) == Some(items@));
            if hit.item_id < items.len() {
                let found = index.item_id(hit.build_id.as_str(), &items[hit.item_id]);
                if let Some(id) = found {
                    counts.set(id, counts[id].saturating_add(hit.hits));
                    seen.set(id, true);
                    proof {
                        target = Some(id as int);
                        assert(credited(*index, *hit, id as int));
                        assert forall|j: int| credited(*index, *hit, j) implies j == id by {
                            one_id(*index, hit.build_id@, items@[hit.item_id as int], j, id as int);
                        }
                    }
                }
            }
        }
        proof {
            assert forall|j: int| #[trigger] credited(*index, *hit, j) <==> target == Some(j) by {}
            assert forall|id: int| 0 <= id < m implies #[trigger] counts@[id] == capped(
                credit(*index, list@, n + 1, id),
            ) by {
                assert(counts0[id] == capped(credit(*index, list@, n as int, id)));
                assert(credited(*index, *hit, id) <==> target == Some(id));
            }
            assert forall|id: int| 0 <= id < m implies #[trigger] seen@[id] == touched(*index, list@, n + 1, id) by {
                assert(seen0[id] == touched(*index, list@, n as int, id));
                assert(credited(*index, *hit, id) <==> target == Some(id));
                if touched(*index, list@, n as int, id) {
                    let i = choose|i: int| 0 <= i < n && credited(*index, #[trigger] list@[i], id);
                    assert(0 <= i < n + 1 && credited(*index, list@[i], id));
                }
                if credited(*index, list@[n as int], id) {
                    assert(touched(*index, list@, n + 1, id));
                }
            }
        }
        n += 1;
    }
    let mut items: Vec<AttributionItem<'a>> = Vec::new();
    let mut k: usize = 0;
    while k < m
        invariant
            index.wf(),
            m == index.items.entries@.len(),
            k <= m,
            counts@.len() == m,
            seen@.len() == m,
            forall|id: int|
                0 <= id < m ==> #[trigger] counts@[id] == capped(credit(*index, list@, list@.len() as int, id)),
            forall|id: int| 0 <= id < m ==> #[trigger] seen@[id] == touched(*index, list@, list@.len() as int, id),
            items@ == attributed(*index, list@, k as int),
        decreases m - k,
    {
        if seen[k] {
            let mut item = index.items.entries[k];
            item.hits = counts[k];
            items.push(item);
        }
        k += 1;
    }
    items
}

/// How a test ended.
#[derive(Clone, Copy, Debug, PartialEq, Eq, Structural)]
pub enum TestStatus {
    Success,
    Failure,
    Skipped,
}

/// What kind of test was run.
#[derive(Clone, Copy, Debug, PartialEq, Eq, Structural)]
pub enum TestKind {
    Unit,
    Fuzz,
    Invariant,
    Table,
    Symbolic,
    Replay,
}

/// The name of a status.
pub open spec fn status_name(status: TestStatus) -> Seq<char> {
    match status {
        TestStatus::Success => "success"@,
        TestStatus::Failure => "failure"@,
        TestStatus::Skipped => "skipped"@,
    }
}

/// The name of a status.
pub fn test_status_name(status: TestStatus) -> (name: &'static str)
    ensures
        name@ == status_name(status),
{
    match status {
        TestStatus::Success => "success",
        TestStatus::Failure => "failure",
        TestStatus::Skipped => "skipped",
    }
}

/// The name of a kind of test.
pub open spec fn kind_name(kind: TestKind) -> Seq<char> {
    match kind {
        TestKind::Unit => "unit"@,
        TestKind::Fuzz => "fuzz"@,
        TestKind::Invariant => "invariant"@,
        TestKind::Table => "table"@,
        TestKind::Symbolic => "symbolic"@,
        TestKind::Replay => "replay"@,
    }
}

/// The name of a kind of test.
pub fn test_kind_name(kind: &TestKind) -> (name: &'static str)
    ensures
        name@ == kind_name(*kind),
{
    match kind {
        TestKind::Unit => "unit",
        TestKind::Fuzz => "fuzz",
        TestKind::Invariant => "invariant",
        TestKind::Table => "table",
        TestKind::Symbolic => "symbolic",
        TestKind::Replay => "replay",
    }
}

/// The result of a test, with the coverage of its setup and its own.
pub struct TestResult {
    pub status: TestStatus,
    pub kind: TestKind,
    pub line_coverage: Option<HitMaps>,
    pub setup_instrumented_coverage: Option<InstrumentedHitMaps>,
    pub instrumented_coverage: Option<InstrumentedHitMaps>,
}

impl TestResult {
    /// What the hit maps of the setup and of the test hold.
    pub open spec fn views(&self) -> Seq<Map<Seq<u8>, u64>> {
        (match self.setup_instrumented_coverage {
            Some(map) => seq![map@],
            None => Seq::empty(),
        }) + (match self.instrumented_coverage {
            Some(map) => seq![map@],
            None => Seq::empty(),
        })
    }

    /// The hit maps of the setup and of the test.
    pub fn instrumented_coverage(&self) -> (maps: Vec<&InstrumentedHitMaps>)
        ensures
            map_views(maps@) == self.views(),
    {
        let mut maps: Vec<&InstrumentedHitMaps> = Vec::new();
        if let Some(map) = &self.setup_instrumented_coverage {
            maps.push(map);
        }
        if let Some(map) = &self.instrumented_coverage {
            maps.push(map);
        }
        assert(map_views(maps@) =~= self.views());
        maps
    }
}

/// The builds, items and hits of a list.
pub open spec fn plain_list(list: Seq<ItemHit>) -> Seq<(Seq<char>, usize, u32)> {
    list.map_values(|hit: ItemHit| (hit.build_id@, hit.item_id, hit.hits))
}

/// The hits of items from the hit map at a position, if it is resolved.
pub open spec fn hits_of_slot(
    report: CoverageReport,
    resolved: Map<Seq<u8>, ResolvedHitMap>,
    maps: HitMaps,
    slot: int,
) -> Seq<(Seq<char>, usize, u32)> {
    if resolved.contains_key(maps.hash_at(slot)) {
        let contract = resolved[maps.hash_at(slot)];
        let build = contract.contract_id.build_id@;
        listed_hits(report, contract.contract_id, maps.spec_at(slot), contract.is_deployed_code).map_values(
            |hit: (usize, u32)| (build, hit.0, hit.1),
        )
    } else {
        Seq::empty()
    }
}

/// The hits of items from the first `n` hit maps.
pub open spec fn line_hits(
    report: CoverageReport,
    resolved: Map<Seq<u8>, ResolvedHitMap>,
    maps: HitMaps,
    n: int,
) -> Seq<(Seq<char>, usize, u32)>
    decreases n,
{
    if n <= 0 {
        Seq::empty()
    } else {
        line_hits(report, resolved, maps, n - 1) + hits_of_slot(report, resolved, maps, n - 1)
    }
}

/// Lists the hits of items from hit maps.
pub fn list_line_hits(report: &CoverageReport, resolved: &ResolvedHitMaps, maps: &HitMaps) -> (list: Vec<ItemHit>)
    requires
        report.wf(),
        resolved.wf(),
        maps.wf(),
    ensures
        plain_list(list@) == line_hits(*report, resolved@, *maps, maps.count() as int),
{
    let mut list: Vec<ItemHit> = Vec::new();
    let mut slot: usize = 0;
    assert(plain_list(list@) =~= Seq::empty());
    while slot < maps.len()
        invariant
            report.wf(),
            resolved.wf(),
            maps.wf(),
            slot <= maps.count(),
            plain_list(list@) == line_hits(*report, resolved@, *maps, slot as int),
        decreases maps.count() - slot,
    {
        let hash = maps.hash(slot);
        proof {
            maps.slots_match();
            assert(maps.has(maps.hash_at(slot as int)));
        }
        if let Some(contract) = resolved.get(&hash) {
            let mut hits = report.hit_items_for_hit_map(
                &contract.contract_id,
                maps.at(slot),
                contract.is_deployed_code,
            );
            let ghost before = list@;
            let ghost own = hits@;
            list.append(&mut hits);
            proof {
                let want = hits_of_slot(*report, resolved@, *maps, slot as int);
                assert(plain_list(own) =~= want) by {
                    let plain = plain_hits_list(own);
                    assert forall|i: int| 0 <= i < own.len() implies plain_list(own)[i] == want[i] by {
                        assert(plain[i] == (own[i].item_id, own[i].hits));
                        assert(own[i].build_id@ == contract.contract_id.build_id@);
                    }
                }
                assert(plain_list(list@) =~= plain_list(before) + plain_list(own));
            }
        } else {
            assert(plain_list(list@) =~= line_hits(*report, resolved@, *maps, slot + 1));
        }
        slot += 1;
    }
    list
}

/// The list holds the hits of items of a test: from its probes where there is an index of them, else
/// from the instructions.
pub open spec fn are_hits_of(
    list: Seq<ItemHit>,
    report: CoverageReport,
    resolved: Map<Seq<u8>, ResolvedHitMap>,
    tags: Option<Map<Seq<u8>, InstrumentedCoverageItemIds>>,
    result: TestResult,
) -> bool {
    match tags {
        Some(tags) => {
            &&& ascending(list)
            &&& forall|k: int| 0 <= k < list.len() ==> (#[trigger] list[k]).hits != 0
            &&& forall|build: Seq<char>, item: usize| #[trigger]
                hits_at(by_key(list), build, item) == resolved_hits(
                    tags,
                    known_tags(tags, result.views()),
                    result.views(),
                    build,
                    item,
                )
        },
        None => match result.line_coverage {
            Some(maps) => plain_list(list) == line_hits(report, resolved, maps, maps.count() as int),
            None => list.len() == 0,
        },
    }
}

/// What an optional index holds.
pub open spec fn opt_tags(index: Option<&InstrumentedCoverageTagIndex>) -> Option<
    Map<Seq<u8>, InstrumentedCoverageItemIds>,
> {
    match index {
        Some(index) => Some(index@),
        None => None,
    }
}

/// What a test needs so that its hits can be resolved.
pub open spec fn resolvable(
    resolved: &ResolvedHitMaps,
    tags: Option<&InstrumentedCoverageTagIndex>,
    result: TestResult,
) -> bool {
    &&& resolved.wf()
    &&& tags is Some ==> tags->0.wf() && consistent(tags->0@) && totals_fit(result.views())
    &&& result.line_coverage is Some ==> result.line_coverage->0.wf()
}

/// The items that a test covered.
pub open spec fn covered_by<'a>(
    covered: Seq<AttributionItem<'a>>,
    index: AttributionIndex<'a>,
    resolved: Map<Seq<u8>, ResolvedHitMap>,
    tags: Option<Map<Seq<u8>, InstrumentedCoverageItemIds>>,
    result: TestResult,
) -> bool {
    exists|list: Seq<ItemHit>| #[trigger]
        are_hits_of(list, *index.report, resolved, tags, result) && covered == attributed(
            index,
            list,
            index.items.entries@.len() as int,
        )
}

/// Finds the items that a test covered, in the order of the index.
pub fn attributed_items<'a>(
    metadata: &AttributionIndex<'a>,
    resolved_hit_maps: &ResolvedHitMaps,
    instrumented_index: Option<&InstrumentedCoverageTagIndex>,
    result: &TestResult,
) -> (covered: Vec<AttributionItem<'a>>)
    requires
        metadata.wf(),
        resolvable(resolved_hit_maps, instrumented_index, *result),
    ensures
        covered_by(covered@, *metadata, resolved_hit_maps@, opt_tags(instrumented_index), *result),
{
    let list: Vec<ItemHit> = match instrumented_index {
        Some(index) => {
            let maps = result.instrumented_coverage();
            let hits = item_hits(index, maps.as_slice());
            let ghost all = hits@;
            let entries = hits.entries;
            assert(all == by_key(entries@));
            assert forall|build: Seq<char>, item: usize| #[trigger] hits_at(by_key(entries@), build, item)
                == resolved_hits(index@, known_tags(index@, result.views()), result.views(), build, item) by {
                assert(hits_at(all, build, item) == resolved_hits(
                    index@,
                    known_tags(index@, result.views()),
                    result.views(),
                    build,
                    item,
                ));
            }
            entries
        },
        None => match &result.line_coverage {
            Some(maps) => list_line_hits(metadata.report, resolved_hit_maps, maps),
            None => Vec::new(),
        },
    };
    assert(are_hits_of(
        list@,
        *metadata.report,
        resolved_hit_maps@,
        opt_tags(instrumented_index),
        *result,
    ));
    attribute(metadata, &list)
}

/// A test and its result.
pub struct NamedResult {
    pub name: String,
    pub result: TestResult,
}

/// The results of a suite of tests.
pub struct SuiteResult {
    pub name: String,
    pub test_results: Vec<NamedResult>,
}

/// The items that a test covered.
pub struct AttributionTest<'a> {
    pub suite: &'a str,
    pub test: &'a str,
    pub status: TestStatus,
    pub kind: TestKind,
    pub covered: Vec<AttributionItem<'a>>,
}

/// The first `m` tests of the suite at a position, behind those of the suites before it.
pub open spec fn tests_up_to(suites: Seq<SuiteResult>, n: int, m: int) -> Seq<(String, NamedResult)>
    decreases n, m,
{
    if n < 0 {
        Seq::empty()
    } else if m <= 0 {
        if n == 0 {
            Seq::empty()
        } else {
            tests_up_to(suites, n - 1, suites[n - 1].test_results@.len() as int)
        }
    } else {
        tests_up_to(suites, n, m - 1).push((suites[n].name, suites[n].test_results@[m - 1]))
    }
}

/// The entry of a test.
pub open spec fn is_entry_of<'a>(
    entry: AttributionTest<'a>,
    test: (String, NamedResult),
    index: AttributionIndex<'a>,
    resolved: Map<Seq<u8>, ResolvedHitMap>,
    tags: Option<Map<Seq<u8>, InstrumentedCoverageItemIds>>,
) -> bool {
    &&& entry.suite@ == test.0@
    &&& entry.test@ == test.1.name@
    &&& entry.status == test.1.result.status
    &&& entry.kind == test.1.result.kind
    &&& covered_by(entry.covered@, index, resolved, tags, test.1.result)
}

/// The version of the report.
pub const ATTRIBUTION_VERSION: u8 = 1;

/// Reports per test which items it covered.
#[derive(Debug)]
pub struct CoverageAttributionReporter {
    /// Where the report goes.
    pub path: String,
}

impl CoverageAttributionReporter {
    /// A reporter that writes to `path`.
    pub fn new(path: String) -> (reporter: Self)
        ensures
            reporter.path == path,
    {
        CoverageAttributionReporter { path }
    }

    /// The entries of all tests, suite by suite.
    pub fn report<'a>(
        &self,
        report: &'a CoverageReport,
        outcome: &'a Vec<SuiteResult>,
        resolved_hit_maps: &ResolvedHitMaps,
        instrumented_index: Option<&InstrumentedCoverageTagIndex>,
    ) -> (tests: Vec<AttributionTest<'a>>)
        requires
            report.wf(),
            forall|k: int, n: int|
                0 <= k < outcome@.len() && 0 <= n < (#[trigger] outcome@[k]).test_results@.len() ==> resolvable(
                    resolved_hit_maps,
                    instrumented_index,
                    (#[trigger] outcome@[k].test_results@[n]).result,
                ),
        ensures
            exists|index: AttributionIndex<'a>| #[trigger]
                index.wf() && *index.report == *report && ({
                    let all = tests_up_to(outcome@, outcome@.len() as int, 0);
                    &&& tests@.len() == all.len()
                    &&& forall|i: int|
                        0 <= i < all.len() ==> is_entry_of(
                            #[trigger] tests@[i],
                            all[i],
                            index,
                            resolved_hit_maps@,
                            opt_tags(instrumented_index),
                        )
                }),
    {
        let index = AttributionIndex::new(report);
        let mut tests: Vec<AttributionTest<'a>> = Vec::new();
        let mut k: usize = 0;
        while k < outcome.len()
            invariant
                index.wf(),
                *index.report == *report,
                k <= outcome@.len(),
                forall|k: int, n: int|
                    0 <= k < outcome@.len() && 0 <= n < (#[trigger] outcome@[k]).test_results@.len() ==> resolvable(
                        resolved_hit_maps,
                        instrumented_index,
                        (#[trigger] outcome@[k].test_results@[n]).result,
                    ),
                tests@.len() == tests_up_to(outcome@, k as int, 0).len(),
                forall|i: int|
                    0 <= i < tests@.len() ==> is_entry_of(
                        #[trigger] tests@[i],
                        tests_up_to(outcome@, k as int, 0)[i],
                        index,
                        resolved_hit_maps@,
                        opt_tags(instrumented_index),
                    ),
            decreases outcome@.len() - k,
        {
            let suite = &outcome[k];
            let mut n: usize = 0;
            while n < suite.test_results.len()
                invariant
                    index.wf(),
                    k < outcome@.len(),
                    *suite == outcome@[k as int],
                    n <= suite.test_results@.len(),
                    forall|k: int, n: int|
                        0 <= k < outcome@.len() && 0 <= n < (#[trigger] outcome@[k]).test_results@.len()
                            ==> resolvable(
                            resolved_hit_maps,
                            instrumented_index,
                            (#[trigger] outcome@[k].test_results@[n]).result,
                        ),
                    tests@.len() == tests_up_to(outcome@, k as int, n as int).len(),
                    forall|i: int|
                        0 <= i < tests@.len() ==> is_entry_of(
                            #[trigger] tests@[i],
                            tests_up_to(outcome@, k as int, n as int)[i],
                            index,
                            resolved_hit_maps@,
                            opt_tags(instrumented_index),
                        ),
                decreases suite.test_results@.len() - n,
            {
                let test = &suite.test_results[n];
                assert(resolvable(resolved_hit_maps, instrumented_index, outcome@[k as int].test_results@[n as int].result));
                let covered = attributed_items(&index, resolved_hit_maps, instrumented_index, &test.result);
                let entry = AttributionTest {
                    suite: suite.name.as_str(),
                    test: test.name.as_str(),
                    status: test.result.status,
                    kind: test.result.kind,
                    covered,
                };
                let ghost before = tests@;
                tests.push(entry);
                proof {
                    let was = tests_up_to(outcome@, k as int, n as int);
                    let now = tests_up_to(outcome@, k as int, n + 1);
                    assert(now == was.push((suite.name, *test)));
                    assert forall|i: int| 0 <= i < tests@.len() implies is_entry_of(
                        #[trigger] tests@[i],
                        now[i],
                        index,
                        resolved_hit_maps@,
                        opt_tags(instrumented_index),
                    ) by {
                        if i < before.len() {
                            assert(is_entry_of(
                                before[i],
                                was[i],
                                index,
                                resolved_hit_maps@,
                                opt_tags(instrumented_index),
                            ));
                        }
                    }
                }
                n += 1;
            }
            assert(tests_up_to(outcome@, k + 1, 0) == tests_up_to(
                outcome@,
                k as int,
                suite.test_results@.len() as int,
            ));
            k += 1;
        }
        tests
    }
}

/// Attributed items come in the order of the index: no item is listed twice, and every later item comes
/// behind the earlier ones.
pub proof fn attributed_items_ascend(index: AttributionIndex, list: Seq<ItemHit>, n: int)
    requires
        index.wf(),
        n <= index.items.entries@.len(),
    ensures
        ascending(attributed(index, list, n)),
        n > 0 ==> forall|i: int|
            0 <= i < attributed(index, list, n).len() ==> {
                let key = (#[trigger] attributed(index, list, n)[i]).sort_key();
                key == index.items.entries@[n - 1].sort_key() || precedes(
                    key,
                    index.items.entries@[n - 1].sort_key(),
                )
            },
    decreases n,
{
    if n > 0 {
        attributed_items_ascend(index, list, n - 1);
        let before = attributed(index, list, n - 1);
        let now = attributed(index, list, n);
        let entries = index.items.entries@;
        assert forall|i: int| 0 <= i < before.len() implies precedes(
            (#[trigger] before[i]).sort_key(),
            entries[n - 1].sort_key(),
        ) by {
            assert(n > 1);
            let key = before[i].sort_key();
            assert(precedes(entries[n - 2].sort_key(), entries[n - 1].sort_key()));
            if key != entries[n - 2].sort_key() {
                precedes_transitive(key, entries[n - 2].sort_key(), entries[n - 1].sort_key());
            }
        }
        if touched(index, list, list.len() as int, n - 1) {
            assert(now.last().sort_key() == entries[n - 1].sort_key());
            assert forall|i: int, j: int| 0 <= i < j < now.len() implies precedes(
                (#[trigger] now[i]).sort_key(),
                (#[trigger] now[j]).sort_key(),
            ) by {
                assert(now[i] == before[i]);
                if j < before.len() {
                    assert(now[j] == before[j]);
                }
            }
        }
    }
}

}
