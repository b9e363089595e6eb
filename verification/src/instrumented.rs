//! Turns probes and hit counts into coverage items and item hits.
use crate::items::{slot_of, CoverageItem, CoverageItemKind, ItemSlot, SourceLocation};
use crate::order::{sort_by_key, stable_sorted, Keyed};
use crate::paths::{has_extension, is_same_path, path_has_extension, same_path};
use crate::probes::{InstrumentedCoverageMetadata, InstrumentedCoverageProbe, InstrumentedCoverageProbeKind};
use crate::report::{make_numbered_key, make_text_key, numbered_key, CoverageReport, SourceAnalysis};
use crate::table::{with_entry, Table};
use crate::tag_table::TagTable;
use crate::text::text_key;
use crate::version::{same_version, Version};
use vstd::prelude::*;

verus! {

/// A source as a build compiled it.
#[derive(Debug)]
pub struct CompiledSource {
    pub build_id: String,
    pub version: Version,
    pub id: u32,
}

/// A source file of the project, and every way it was compiled.
#[derive(Debug)]
pub struct SourceFile {
    pub path: String,
    /// The file lies in a library directory.
    pub in_library: bool,
    /// The file holds tests.
    pub is_test: bool,
    pub sources: Vec<CompiledSource>,
}

/// One way a source file was compiled, with what is known of the file.
#[derive(Debug)]
pub struct ListedSource {
    pub path: String,
    pub in_library: bool,
    pub is_test: bool,
    pub build_id: String,
    pub version: Version,
    pub id: u32,
}

/// The path is that of a Vyper source.
pub open spec fn is_vyper(path: Seq<char>) -> bool {
    has_extension(path, "vy"@) || has_extension(path, "vyi"@)
}

/// Two listed sources are the same: path, compiler version and id agree.
pub open spec fn same_source(a: ListedSource, b: ListedSource) -> bool {
    &&& same_path(a.path@, b.path@)
    &&& same_version(a.version, b.version)
    &&& a.id == b.id
}

/// What is listed for a way in which a file was compiled.
pub open spec fn listing(file: SourceFile, source: CompiledSource) -> ListedSource {
    ListedSource {
        path: file.path,
        in_library: file.in_library,
        is_test: file.is_test,
        build_id: source.build_id,
        version: source.version,
        id: source.id,
    }
}

/// The list with `source` behind it, unless the same source is there already.
pub open spec fn with_source(list: Seq<ListedSource>, source: ListedSource) -> Seq<ListedSource> {
    if exists|i: int| 0 <= i < list.len() && same_source(#[trigger] list[i], source) {
        list
    } else {
        list.push(source)
    }
}

/// The list after the first `n` sources of a file.
pub open spec fn with_file(list: Seq<ListedSource>, file: SourceFile, n: int) -> Seq<ListedSource>
    decreases n,
{
    if n <= 0 {
        list
    } else {
        with_source(with_file(list, file, n - 1), listing(file, file.sources@[n - 1]))
    }
}

/// The sources of all files but Vyper files, each once, in the order of the files.
pub open spec fn listed(files: Seq<SourceFile>) -> Seq<ListedSource>
    decreases files.len(),
{
    if files.len() == 0 {
        Seq::empty()
    } else {
        let before = listed(files.drop_last());
        let file = files.last();
        if is_vyper(file.path@) {
            before
        } else {
            with_file(before, file, file.sources@.len() as int)
        }
    }
}

impl Clone for ListedSource {
    fn clone(&self) -> (copy: Self)
        ensures
            copy == *self,
    {
        ListedSource {
            path: self.path.clone(),
            in_library: self.in_library,
            is_test: self.is_test,
            build_id: self.build_id.clone(),
            version: self.version.clone(),
            id: self.id,
        }
    }
}

impl Keyed for ListedSource {
    open spec fn sort_key(&self) -> Seq<u64> {
        numbered_key(self.build_id@, self.id as usize)
    }

    fn make_key(&self) -> (key: Vec<u64>) {
        make_numbered_key(self.build_id.as_str(), self.id as usize)
    }
}

/// Lists the sources of all files but Vyper files, each once.
pub fn list_sources(files: &Vec<SourceFile>) -> (list: Vec<ListedSource>)
    ensures
        list@ == listed(files@),
{
    let mut list: Vec<ListedSource> = Vec::new();
    let mut k: usize = 0;
    assert(list@ =~= listed(files@.take(0)));
    while k < files.len()
        invariant
            k <= files@.len(),
            list@ == listed(files@.take(k as int)),
        decreases files@.len() - k,
    {
        let file = &files[k];
        assert(files@.take(k + 1).drop_last() =~= files@.take(k as int));
        assert(files@.take(k + 1).last() == *file);
        if !(path_has_extension(file.path.as_str(), "vy") || path_has_extension(file.path.as_str(), "vyi")) {
            let ghost before = list@;
            let mut n: usize = 0;
            while n < file.sources.len()
                invariant
                    n <= file.sources@.len(),
                    list@ == with_file(before, *file, n as int),
                decreases file.sources@.len() - n,
            {
                let source = &file.sources[n];
                let new = ListedSource {
                    path: file.path.clone(),
                    in_library: file.in_library,
                    is_test: file.is_test,
                    build_id: source.build_id.clone(),
                    version: source.version.clone(),
                    id: source.id,
                };
                assert(new == listing(*file, file.sources@[n as int]));
                let mut seen = false;
                let mut i: usize = 0;
                while i < list.len()
                    invariant
                        i <= list@.len(),
                        seen == exists|j: int| 0 <= j < i && same_source(#[trigger] list@[j], new),
                    decreases list@.len() - i,
                {
                    let other = &list[i];
                    if is_same_path(other.path.as_str(), new.path.as_str()) && other.version.same(&new.version) && other.id
                        == new.id {
                        assert(same_source(list@[i as int], new));
                        seen = true;
                    }
                    i += 1;
                }
                if !seen {
                    list.push(new);
                }
                n += 1;
            }
        }
        k += 1;
    }
    assert(files@.take(k as int) =~= files@);
    list
}

/// The item of a kind at the place of a probe.
pub open spec fn item_at(source_id: u32, probe: InstrumentedCoverageProbe, kind: CoverageItemKind) -> CoverageItem {
    CoverageItem {
        kind,
        loc: SourceLocation {
            source_id: source_id as usize,
            contract_name: probe.contract_name,
            bytes: probe.bytes,
            lines: probe.lines,
        },
        hits: 0,
    }
}

/// Makes the item of a kind at the place of a probe.
pub fn make_item(source_id: u32, probe: &InstrumentedCoverageProbe, kind: CoverageItemKind) -> (item: CoverageItem)
    ensures
        item == item_at(source_id, *probe, kind),
{
    CoverageItem {
        kind,
        loc: SourceLocation {
            source_id: source_id as usize,
            contract_name: probe.contract_name.clone(),
            bytes: probe.bytes.start..probe.bytes.end,
            lines: probe.lines.start..probe.lines.end,
        },
        hits: 0,
    }
}

/// One of the items has the slot.
pub open spec fn has_slot(items: Seq<CoverageItem>, slot: ItemSlot) -> bool {
    exists|i: int| 0 <= i < items.len() && slot_of(#[trigger] items[i]) == slot
}

/// The items with `item` behind them, unless its slot is taken.
pub open spec fn with_item(items: Seq<CoverageItem>, item: CoverageItem) -> Seq<CoverageItem> {
    if has_slot(items, slot_of(item)) { items } else { items.push(item) }
}

/// The items after those of a probe: the line, and what the probe stands for. A requirement has a
/// path for failure and a path for success, and counts as a statement where it is about to be
/// tested.
pub open spec fn with_probe(items: Seq<CoverageItem>, source_id: u32, probe: InstrumentedCoverageProbe) -> Seq<
    CoverageItem,
> {
    let line = with_item(items, item_at(source_id, probe, CoverageItemKind::Line));
    match probe.kind {
        InstrumentedCoverageProbeKind::Statement => {
            with_item(line, item_at(source_id, probe, CoverageItemKind::Statement))
        },
        InstrumentedCoverageProbeKind::Branch { branch_id, path_id } => {
            with_item(
                line,
                item_at(source_id, probe, CoverageItemKind::Branch { branch_id, path_id, is_first_opcode: true }),
            )
        },
        InstrumentedCoverageProbeKind::RequirePre { branch_id } => {
            with_outcomes(
                with_item(line, item_at(source_id, probe, CoverageItemKind::Statement)),
                source_id,
                probe,
                branch_id,
            )
        },
        InstrumentedCoverageProbeKind::RequirePost { branch_id } => {
            with_outcomes(line, source_id, probe, branch_id)
        },
        InstrumentedCoverageProbeKind::Function { name } => {
            with_item(line, item_at(source_id, probe, CoverageItemKind::Function { name }))
        },
    }
}

/// The items after the two paths of a requirement.
pub open spec fn with_outcomes(
    items: Seq<CoverageItem>,
    source_id: u32,
    probe: InstrumentedCoverageProbe,
    branch_id: u32,
) -> Seq<CoverageItem> {
    with_item(
        with_item(
            items,
            item_at(source_id, probe, CoverageItemKind::Branch { branch_id, path_id: 0, is_first_opcode: false }),
        ),
        item_at(source_id, probe, CoverageItemKind::Branch { branch_id, path_id: 1, is_first_opcode: false }),
    )
}

/// The items of a source's probes in the order of the probes, one for each slot.
pub open spec fn probe_items(source_id: u32, probes: Seq<InstrumentedCoverageProbe>) -> Seq<CoverageItem>
    decreases probes.len(),
{
    if probes.len() == 0 {
        Seq::empty()
    } else {
        with_probe(probe_items(source_id, probes.drop_last()), source_id, probes.last())
    }
}

/// The items of a source: one for each slot, in the order of items.
pub open spec fn source_items(source_id: u32, probes: Seq<InstrumentedCoverageProbe>) -> Seq<CoverageItem> {
    stable_sorted(probe_items(source_id, probes))
}

fn add_item(items: &mut Vec<CoverageItem>, item: CoverageItem)
    ensures
        final(items)@ == with_item(old(items)@, item),
{
    let slot = item.slot();
    let mut i: usize = 0;
    while i < items.len()
        invariant
            items@ == old(items)@,
            slot == slot_of(item),
            i <= items@.len(),
            forall|j: int| 0 <= j < i ==> slot_of(#[trigger] items@[j]) != slot,
        decreases items@.len() - i,
    {
        if items[i].slot() == slot {
            assert(slot_of(items@[i as int]) == slot);
            return ;
        }
        i += 1;
    }
    items.push(item);
}

/// Builds the items of one source from its probes.
pub fn build_source_items(source_id: u32, probes: &Vec<InstrumentedCoverageProbe>) -> (items: Vec<CoverageItem>)
    ensures
        items@ == source_items(source_id, probes@),
{
    let mut items: Vec<CoverageItem> = Vec::new();
    let mut k: usize = 0;
    assert(items@ =~= probe_items(source_id, probes@.take(0)));
    while k < probes.len()
        invariant
            k <= probes@.len(),
            items@ == probe_items(source_id, probes@.take(k as int)),
        decreases probes@.len() - k,
    {
        let probe = &probes[k];
        assert(probes@.take(k + 1).drop_last() =~= probes@.take(k as int));
        assert(probes@.take(k + 1).last() == *probe);
        add_item(&mut items, make_item(source_id, probe, CoverageItemKind::Line));
        match &probe.kind {
            InstrumentedCoverageProbeKind::Statement => {
                add_item(&mut items, make_item(source_id, probe, CoverageItemKind::Statement));
            },
            InstrumentedCoverageProbeKind::Branch { branch_id, path_id } => {
                let kind = CoverageItemKind::Branch {
                    branch_id: *branch_id,
                    path_id: *path_id,
                    is_first_opcode: true,
                };
                add_item(&mut items, make_item(source_id, probe, kind));
            },
            InstrumentedCoverageProbeKind::RequirePre { branch_id } => {
                add_item(&mut items, make_item(source_id, probe, CoverageItemKind::Statement));
                let fails = CoverageItemKind::Branch { branch_id: *branch_id, path_id: 0, is_first_opcode: false };
                add_item(&mut items, make_item(source_id, probe, fails));
                let holds = CoverageItemKind::Branch { branch_id: *branch_id, path_id: 1, is_first_opcode: false };
                add_item(&mut items, make_item(source_id, probe, holds));
            },
            InstrumentedCoverageProbeKind::RequirePost { branch_id } => {
                let fails = CoverageItemKind::Branch { branch_id: *branch_id, path_id: 0, is_first_opcode: false };
                add_item(&mut items, make_item(source_id, probe, fails));
                let holds = CoverageItemKind::Branch { branch_id: *branch_id, path_id: 1, is_first_opcode: false };
                add_item(&mut items, make_item(source_id, probe, holds));
            },
            InstrumentedCoverageProbeKind::Function { name } => {
                let kind = CoverageItemKind::Function { name: name.clone() };
                add_item(&mut items, make_item(source_id, probe, kind));
            },
        }
        k += 1;
    }
    assert(probes@.take(k as int) =~= probes@);
    sort_by_key(items)
}

/// The probes of a source: those with its compiler version and path, in their order.
pub open spec fn probes_for(probes: Seq<InstrumentedCoverageProbe>, source: ListedSource) -> Seq<
    InstrumentedCoverageProbe,
>
    decreases probes.len(),
{
    if probes.len() == 0 {
        Seq::empty()
    } else {
        let before = probes_for(probes.drop_last(), source);
        let probe = probes.last();
        if same_version(probe.version, source.version) && same_path(probe.path@, source.path@) {
            before.push(probe)
        } else {
            before
        }
    }
}

/// Picks the probes of a source.
pub fn pick_probes(probes: &Vec<InstrumentedCoverageProbe>, source: &ListedSource) -> (picked: Vec<
    InstrumentedCoverageProbe,
>)
    ensures
        picked@ == probes_for(probes@, *source),
{
    let mut picked: Vec<InstrumentedCoverageProbe> = Vec::new();
    let mut k: usize = 0;
    assert(picked@ =~= probes_for(probes@.take(0), *source));
    while k < probes.len()
        invariant
            k <= probes@.len(),
            picked@ == probes_for(probes@.take(k as int), *source),
        decreases probes@.len() - k,
    {
        let probe = &probes[k];
        assert(probes@.take(k + 1).drop_last() =~= probes@.take(k as int));
        assert(probes@.take(k + 1).last() == *probe);
        if probe.version.same(&source.version) && is_same_path(probe.path.as_str(), source.path.as_str()) {
            picked.push(probe.clone());
        }
        k += 1;
    }
    assert(probes@.take(k as int) =~= probes@);
    picked
}

/// The path under which a source id of a build is registered: that of the last listed source with
/// this id and build among the first `n`.
pub open spec fn registered_path(list: Seq<ListedSource>, n: int, build: Seq<char>, id: usize) -> Option<Seq<char>>
    decreases n,
{
    if n <= 0 {
        None
    } else if list[n - 1].build_id@ == build && list[n - 1].id as usize == id {
        Some(list[n - 1].path@)
    } else {
        registered_path(list, n - 1, build, id)
    }
}

/// The id under which a path of a build is registered: that of the last listed source with this
/// path and build among the first `n`.
pub open spec fn registered_id(list: Seq<ListedSource>, n: int, build: Seq<char>, path: Seq<char>) -> Option<usize>
    decreases n,
{
    if n <= 0 {
        None
    } else if list[n - 1].build_id@ == build && same_path(list[n - 1].path@, path) {
        Some(list[n - 1].id as usize)
    } else {
        registered_id(list, n - 1, build, path)
    }
}

/// The items of a source count: it is neither a library file nor a test that is left out, and it has
/// probes.
pub open spec fn counts(
    source: ListedSource,
    probes: Seq<InstrumentedCoverageProbe>,
    with_libs: bool,
    without_tests: bool,
) -> bool {
    &&& with_libs || !source.in_library
    &&& !without_tests || !source.is_test
    &&& probes_for(probes, source).len() > 0
}

/// The sources that count among the first `n`, by build and id; of two with the same build and id
/// the later one stays.
pub open spec fn counted(
    list: Seq<ListedSource>,
    n: int,
    probes: Seq<InstrumentedCoverageProbe>,
    with_libs: bool,
    without_tests: bool,
) -> Seq<ListedSource>
    decreases n,
{
    if n <= 0 {
        Seq::empty()
    } else {
        let before = counted(list, n - 1, probes, with_libs, without_tests);
        if counts(list[n - 1], probes, with_libs, without_tests) {
            with_entry(before, list[n - 1])
        } else {
            before
        }
    }
}

/// The items of a build: those of its sources among the first `n` that count, source by source.
pub open spec fn build_items(
    sources: Seq<ListedSource>,
    n: int,
    probes: Seq<InstrumentedCoverageProbe>,
    build: Seq<char>,
) -> Seq<CoverageItem>
    decreases n,
{
    if n <= 0 {
        Seq::empty()
    } else {
        let before = build_items(sources, n - 1, probes, build);
        if sources[n - 1].build_id@ == build {
            before + source_items(sources[n - 1].id, probes_for(probes, sources[n - 1]))
        } else {
            before
        }
    }
}

/// One of the first `n` sources belongs to the build.
pub open spec fn has_build(sources: Seq<ListedSource>, n: int, build: Seq<char>) -> bool {
    exists|k: int| 0 <= k < n && (#[trigger] sources[k]).build_id@ == build
}

/// The position of the last item of a source that has the slot.
pub open spec fn find_slot(items: Seq<CoverageItem>, source_id: u32, slot: ItemSlot) -> Option<usize>
    decreases items.len(),
{
    if items.len() == 0 {
        None
    } else if items.last().loc.source_id == source_id as usize && slot_of(items.last()) == slot {
        Some((items.len() - 1) as usize)
    } else {
        find_slot(items.drop_last(), source_id, slot)
    }
}

/// Finds the last item of a source that has the slot.
pub fn find_item(items: &Vec<CoverageItem>, source_id: u32, slot: ItemSlot) -> (found: Option<usize>)
    ensures
        found == find_slot(items@, source_id, slot),
{
    let mut k: usize = items.len();
    assert(items@.take(k as int) =~= items@);
    while k > 0
        invariant
            k <= items@.len(),
            find_slot(items@, source_id, slot) == find_slot(items@.take(k as int), source_id, slot),
        decreases k,
    {
        assert(items@.take(k as int).drop_last() =~= items@.take(k - 1));
        assert(items@.take(k as int).last() == items@[k - 1]);
        let item = &items[k - 1];
        if item.loc.source_id == source_id as usize && item.slot() == slot {
            return Some(k - 1);
        }
        k -= 1;
    }
    None
}

/// Which side of a requirement a probe stands on.
#[derive(Clone, Copy, Debug, PartialEq, Eq, Structural)]
pub enum InstrumentedRequireProbeRole {
    /// Before the test.
    Pre,
    /// Behind the test, where it was met.
    Post,
}

/// The two items of a requirement.
#[derive(Clone, Copy, Debug, PartialEq, Eq, Structural)]
pub struct InstrumentedRequireBranchIds {
    pub role: InstrumentedRequireProbeRole,
    pub false_item_id: usize,
    pub true_item_id: usize,
}

/// The items of a build that a tag counts for.
#[derive(Debug)]
pub struct InstrumentedCoverageItemIds {
    pub build_id: String,
    pub line_item_id: usize,
    pub statement_item_id: Option<usize>,
    pub branch_item_id: Option<usize>,
    pub require_branch: Option<InstrumentedRequireBranchIds>,
    pub function_item_id: Option<usize>,
}

/// The two items of a requirement, where both are there.
pub open spec fn require_ids(
    items: Seq<CoverageItem>,
    source_id: u32,
    branch_id: u32,
    role: InstrumentedRequireProbeRole,
) -> Option<InstrumentedRequireBranchIds> {
    let fails = find_slot(items, source_id, ItemSlot::Branch { branch_id, path_id: 0 });
    let holds = find_slot(items, source_id, ItemSlot::Branch { branch_id, path_id: 1 });
    if fails is Some && holds is Some {
        Some(InstrumentedRequireBranchIds { role, false_item_id: fails->0, true_item_id: holds->0 })
    } else {
        None
    }
}

/// The items that a probe of a source counts for; none where the source has no item for its lines.
pub open spec fn ids_of(
    items: Seq<CoverageItem>,
    source: ListedSource,
    probe: InstrumentedCoverageProbe,
) -> Option<InstrumentedCoverageItemIds> {
    let line = find_slot(items, source.id, ItemSlot::Line { start: probe.lines.start, end: probe.lines.end });
    let statement_slot = ItemSlot::Statement { start: probe.bytes.start, end: probe.bytes.end };
    let function_slot = ItemSlot::Function { start: probe.bytes.start, end: probe.bytes.end };
    if line is None {
        None
    } else {
        Some(
            InstrumentedCoverageItemIds {
                build_id: source.build_id,
                line_item_id: line->0,
                statement_item_id: match probe.kind {
                    InstrumentedCoverageProbeKind::Statement => find_slot(items, source.id, statement_slot),
                    InstrumentedCoverageProbeKind::RequirePre { .. } => find_slot(items, source.id, statement_slot),
                    _ => None,
                },
                branch_item_id: match probe.kind {
                    InstrumentedCoverageProbeKind::Branch { branch_id, path_id } => find_slot(
                        items,
                        source.id,
                        ItemSlot::Branch { branch_id, path_id },
                    ),
                    _ => None,
                },
                require_branch: match probe.kind {
                    InstrumentedCoverageProbeKind::RequirePre { branch_id } => require_ids(
                        items,
                        source.id,
                        branch_id,
                        InstrumentedRequireProbeRole::Pre,
                    ),
                    InstrumentedCoverageProbeKind::RequirePost { branch_id } => require_ids(
                        items,
                        source.id,
                        branch_id,
                        InstrumentedRequireProbeRole::Post,
                    ),
                    _ => None,
                },
                function_item_id: match probe.kind {
                    InstrumentedCoverageProbeKind::Function { .. } => find_slot(items, source.id, function_slot),
                    _ => None,
                },
            },
        )
    }
}

/// Resolves the two items of a requirement.
fn resolve_require(
    items: &Vec<CoverageItem>,
    source_id: u32,
    branch_id: u32,
    role: InstrumentedRequireProbeRole,
) -> (ids: Option<InstrumentedRequireBranchIds>)
    ensures
        ids == require_ids(items@, source_id, branch_id, role),
{
    let fails = find_item(items, source_id, ItemSlot::Branch { branch_id, path_id: 0 });
    let holds = find_item(items, source_id, ItemSlot::Branch { branch_id, path_id: 1 });
    match (fails, holds) {
        (Some(false_item_id), Some(true_item_id)) => Some(
            InstrumentedRequireBranchIds { role, false_item_id, true_item_id },
        ),
        _ => None,
    }
}

/// Resolves the items that a probe of a source counts for.
pub fn resolve_probe(
    items: &Vec<CoverageItem>,
    source: &ListedSource,
    probe: &InstrumentedCoverageProbe,
) -> (ids: Option<InstrumentedCoverageItemIds>)
    ensures
        ids == ids_of(items@, *source, *probe),
{
    let line_slot = ItemSlot::Line { start: probe.lines.start, end: probe.lines.end };
    let line_item_id: usize = match find_item(items, source.id, line_slot) {
        Some(id) => id,
        None => {
            return None;
        },
    };
    let statement_slot = ItemSlot::Statement { start: probe.bytes.start, end: probe.bytes.end };
    let function_slot = ItemSlot::Function { start: probe.bytes.start, end: probe.bytes.end };
    let mut ids = InstrumentedCoverageItemIds {
        build_id: source.build_id.clone(),
        line_item_id,
        statement_item_id: None,
        branch_item_id: None,
        require_branch: None,
        function_item_id: None,
    };
    match &probe.kind {
        InstrumentedCoverageProbeKind::Statement => {
            ids.statement_item_id = find_item(items, source.id, statement_slot);
        },
        InstrumentedCoverageProbeKind::Branch { branch_id, path_id } => {
            let slot = ItemSlot::Branch { branch_id: *branch_id, path_id: *path_id };
            ids.branch_item_id = find_item(items, source.id, slot);
        },
        InstrumentedCoverageProbeKind::RequirePre { branch_id } => {
            ids.statement_item_id = find_item(items, source.id, statement_slot);
            ids.require_branch = resolve_require(items, source.id, *branch_id, InstrumentedRequireProbeRole::Pre);
        },
        InstrumentedCoverageProbeKind::RequirePost { branch_id } => {
            ids.require_branch = resolve_require(items, source.id, *branch_id, InstrumentedRequireProbeRole::Post);
        },
        InstrumentedCoverageProbeKind::Function { .. } => {
            ids.function_item_id = find_item(items, source.id, function_slot);
        },
    }
    Some(ids)
}

/// The items that every tag counts for.
pub struct InstrumentedCoverageTagIndex(pub TagTable<InstrumentedCoverageItemIds>);

impl View for InstrumentedCoverageTagIndex {
    type V = Map<Seq<u8>, InstrumentedCoverageItemIds>;

    open spec fn view(&self) -> Map<Seq<u8>, InstrumentedCoverageItemIds> {
        self.0@
    }
}

impl InstrumentedCoverageTagIndex {
    /// The table is well formed.
    pub open spec fn wf(&self) -> bool {
        self.0.wf()
    }

    /// An index without tags.
    pub fn new() -> (index: Self)
        ensures
            index.wf(),
            index@ == Map::<Seq<u8>, InstrumentedCoverageItemIds>::empty(),
    {
        InstrumentedCoverageTagIndex(TagTable::new())
    }

    /// Sets the items that a tag counts for.
    pub fn insert(&mut self, tag: [u8; 32], ids: InstrumentedCoverageItemIds)
        requires
            old(self).wf(),
        ensures
            final(self).wf(),
            final(self)@ == old(self)@.insert(tag@, ids),
    {
        self.0.insert(tag, ids);
    }

    /// The items that a tag counts for.
    pub fn get(&self, tag: &[u8; 32]) -> (ids: Option<&InstrumentedCoverageItemIds>)
        requires
            self.wf(),
        ensures
            ids is Some <==> self@.contains_key(tag@),
            ids is Some ==> *ids->0 == self@[tag@],
    {
        self.0.get(tag)
    }
}

/// The index after the first `n` probes of a source; of two probes with one tag the later one counts.
pub open spec fn index_probes(
    index: Map<Seq<u8>, InstrumentedCoverageItemIds>,
    items: Seq<CoverageItem>,
    source: ListedSource,
    probes: Seq<InstrumentedCoverageProbe>,
    n: int,
) -> Map<Seq<u8>, InstrumentedCoverageItemIds>
    decreases n,
{
    if n <= 0 {
        index
    } else {
        let before = index_probes(index, items, source, probes, n - 1);
        match ids_of(items, source, probes[n - 1]) {
            Some(ids) => before.insert(probes[n - 1].tag@, ids),
            None => before,
        }
    }
}

/// The index of the probes of the first `n` sources that count.
pub open spec fn index_sources(
    sources: Seq<ListedSource>,
    n: int,
    probes: Seq<InstrumentedCoverageProbe>,
) -> Map<Seq<u8>, InstrumentedCoverageItemIds>
    decreases n,
{
    if n <= 0 {
        Map::empty()
    } else {
        let source = sources[n - 1];
        let own = probes_for(probes, source);
        index_probes(
            index_sources(sources, n - 1, probes),
            build_items(sources, sources.len() as int, probes, source.build_id@),
            source,
            own,
            own.len() as int,
        )
    }
}

/// A tag whose hits are added to those of the item.
pub open spec fn adds_to(ids: InstrumentedCoverageItemIds, build: Seq<char>, item: usize) -> bool {
    ids.build_id@ == build && (ids.statement_item_id == Some(item) || ids.branch_item_id == Some(item))
}

/// A tag whose hits the item reaches at least.
pub open spec fn raises(ids: InstrumentedCoverageItemIds, build: Seq<char>, item: usize) -> bool {
    ids.build_id@ == build && (ids.line_item_id == item || ids.function_item_id == Some(item))
}

/// A tag on one side of the requirement that the item is a path of.
pub open spec fn decides(ids: InstrumentedCoverageItemIds, build: Seq<char>, item: usize) -> bool {
    &&& ids.build_id@ == build
    &&& ids.require_branch is Some
    &&& ids.require_branch->0.false_item_id == item || ids.require_branch->0.true_item_id == item
}

/// Two tags of one requirement name the same two items.
pub open spec fn same_pair(a: InstrumentedRequireBranchIds, b: InstrumentedRequireBranchIds) -> bool {
    a.false_item_id == b.false_item_id && a.true_item_id == b.true_item_id
}

/// Each item is counted in one way: no item both adds up hits and takes the largest, and an item
/// that is a path of a requirement is the same path of the same requirement for every tag.
pub open spec fn consistent(index: Map<Seq<u8>, InstrumentedCoverageItemIds>) -> bool {
    forall|s: Seq<u8>, t: Seq<u8>| #[trigger]
        index.contains_key(s) && #[trigger] index.contains_key(t) && index[s].build_id@ == index[t].build_id@
            ==> compatible(index[s], index[t])
}

/// Two tags of a build count in ways that go together.
pub open spec fn compatible(a: InstrumentedCoverageItemIds, b: InstrumentedCoverageItemIds) -> bool {
    &&& forall|item: usize| !(adds_to(a, a.build_id@, item) && #[trigger] raises(b, a.build_id@, item))
    &&& a.require_branch is Some && b.require_branch is Some ==> {
        let p = a.require_branch->0;
        let q = b.require_branch->0;
        &&& p.false_item_id == q.false_item_id ==> same_pair(p, q)
        &&& p.true_item_id == q.true_item_id ==> same_pair(p, q)
        &&& p.false_item_id != q.true_item_id
    }
}

proof fn find_slot_finds(items: Seq<CoverageItem>, source_id: u32, slot: ItemSlot)
    requires
        items.len() <= usize::MAX,
    ensures
        find_slot(items, source_id, slot) is Some ==> {
            let i = find_slot(items, source_id, slot)->0;
            i < items.len() && slot_of(items[i as int]) == slot && items[i as int].loc.source_id == source_id as usize
        },
    decreases items.len(),
{
    if items.len() > 0 {
        find_slot_finds(items.drop_last(), source_id, slot);
    }
}

/// The tags were resolved from probes against the items of their build.
spec fn resolved_from(ids: InstrumentedCoverageItemIds, sources: Seq<ListedSource>, probes: Seq<InstrumentedCoverageProbe>) -> bool {
    exists|k: int, probe: InstrumentedCoverageProbe|
        0 <= k < sources.len() && #[trigger] ids_of(
            build_items(sources, sources.len() as int, probes, sources[k].build_id@),
            sources[k],
            probe,
        ) == Some(ids)
}

proof fn index_probes_resolved(
    sources: Seq<ListedSource>,
    all: Seq<InstrumentedCoverageProbe>,
    index: Map<Seq<u8>, InstrumentedCoverageItemIds>,
    k: int,
    probes: Seq<InstrumentedCoverageProbe>,
    n: int,
)
    requires
        0 <= k < sources.len(),
        forall|tag: Seq<u8>| #[trigger] index.contains_key(tag) ==> resolved_from(index[tag], sources, all),
    ensures
        ({
            let items = build_items(sources, sources.len() as int, all, sources[k].build_id@);
            let after = index_probes(index, items, sources[k], probes, n);
            forall|tag: Seq<u8>| #[trigger] after.contains_key(tag) ==> resolved_from(after[tag], sources, all)
        }),
    decreases n,
{
    if n > 0 {
        index_probes_resolved(sources, all, index, k, probes, n - 1);
        let items = build_items(sources, sources.len() as int, all, sources[k].build_id@);
        let before = index_probes(index, items, sources[k], probes, n - 1);
        let after = index_probes(index, items, sources[k], probes, n);
        let own = ids_of(items, sources[k], probes[n - 1]);
        if own is Some {
            assert(resolved_from(own->0, sources, all));
            assert(after == before.insert(probes[n - 1].tag@, own->0));
        }
        assert forall|tag: Seq<u8>| #[trigger] after.contains_key(tag) implies resolved_from(
            after[tag],
            sources,
            all,
        ) by {
            if own is None || tag != probes[n - 1].tag@ {
                assert(before.contains_key(tag));
            }
        }
    }
}

proof fn index_sources_resolved(sources: Seq<ListedSource>, n: int, probes: Seq<InstrumentedCoverageProbe>)
    requires
        n <= sources.len(),
    ensures
        forall|tag: Seq<u8>| #[trigger]
            index_sources(sources, n, probes).contains_key(tag) ==> resolved_from(
                index_sources(sources, n, probes)[tag],
                sources,
                probes,
            ),
    decreases n,
{
    if n > 0 {
        index_sources_resolved(sources, n - 1, probes);
        let own = probes_for(probes, sources[n - 1]);
        index_probes_resolved(
            sources,
            probes,
            index_sources(sources, n - 1, probes),
            n - 1,
            own,
            own.len() as int,
        );
    }
}

proof fn resolved_compatible(
    items: Seq<CoverageItem>,
    a: InstrumentedCoverageItemIds,
    b: InstrumentedCoverageItemIds,
    s: ListedSource,
    t: ListedSource,
    p: InstrumentedCoverageProbe,
    q: InstrumentedCoverageProbe,
)
    requires
        items.len() <= usize::MAX,
        ids_of(items, s, p) == Some(a),
        ids_of(items, t, q) == Some(b),
    ensures
        compatible(a, b),
{
    find_slot_finds(items, s.id, ItemSlot::Statement { start: p.bytes.start, end: p.bytes.end });
    find_slot_finds(items, t.id, ItemSlot::Line { start: q.lines.start, end: q.lines.end });
    find_slot_finds(items, t.id, ItemSlot::Function { start: q.bytes.start, end: q.bytes.end });
    if let InstrumentedCoverageProbeKind::Branch { branch_id, path_id } = p.kind {
        find_slot_finds(items, s.id, ItemSlot::Branch { branch_id, path_id });
    }
    if a.require_branch is Some && b.require_branch is Some {
        let m = match p.kind {
            InstrumentedCoverageProbeKind::RequirePre { branch_id } => branch_id,
            InstrumentedCoverageProbeKind::RequirePost { branch_id } => branch_id,
            _ => 0,
        };
        let n = match q.kind {
            InstrumentedCoverageProbeKind::RequirePre { branch_id } => branch_id,
            InstrumentedCoverageProbeKind::RequirePost { branch_id } => branch_id,
            _ => 0,
        };
        find_slot_finds(items, s.id, ItemSlot::Branch { branch_id: m, path_id: 0 });
        find_slot_finds(items, s.id, ItemSlot::Branch { branch_id: m, path_id: 1 });
        find_slot_finds(items, t.id, ItemSlot::Branch { branch_id: n, path_id: 0 });
        find_slot_finds(items, t.id, ItemSlot::Branch { branch_id: n, path_id: 1 });
    }
}

/// The index of a project's probes counts each item in one way.
pub proof fn index_is_consistent(sources: Seq<ListedSource>, probes: Seq<InstrumentedCoverageProbe>)
    requires
        forall|build: Seq<char>|
            (#[trigger] build_items(sources, sources.len() as int, probes, build)).len() <= usize::MAX,
    ensures
        consistent(index_sources(sources, sources.len() as int, probes)),
{
    let index = index_sources(sources, sources.len() as int, probes);
    index_sources_resolved(sources, sources.len() as int, probes);
    assert forall|s: Seq<u8>, t: Seq<u8>| #[trigger]
        index.contains_key(s) && #[trigger] index.contains_key(t) && index[s].build_id@
            == index[t].build_id@ implies compatible(index[s], index[t]) by {
        let (j, p) = choose|k: int, probe: InstrumentedCoverageProbe|
            0 <= k < sources.len() && #[trigger] ids_of(
                build_items(sources, sources.len() as int, probes, sources[k].build_id@),
                sources[k],
                probe,
            ) == Some(index[s]);
        let (k, q) = choose|k: int, probe: InstrumentedCoverageProbe|
            0 <= k < sources.len() && #[trigger] ids_of(
                build_items(sources, sources.len() as int, probes, sources[k].build_id@),
                sources[k],
                probe,
            ) == Some(index[t]);
        let items = build_items(sources, sources.len() as int, probes, index[s].build_id@);
        resolved_compatible(items, index[s], index[t], sources[j], sources[k], p, q);
    }
}

/// Collects the items of a build.
fn collect_build_items(
    sources: &Vec<ListedSource>,
    probes: &Vec<InstrumentedCoverageProbe>,
    build_id: &String,
) -> (items: Vec<CoverageItem>)
    ensures
        items@ == build_items(sources@, sources@.len() as int, probes@, build_id@),
{
    let mut items: Vec<CoverageItem> = Vec::new();
    let mut k: usize = 0;
    while k < sources.len()
        invariant
            k <= sources@.len(),
            items@ == build_items(sources@, k as int, probes@, build_id@),
        decreases sources@.len() - k,
    {
        if sources[k].build_id == *build_id {
            let picked = pick_probes(probes, &sources[k]);
            let mut own = build_source_items(sources[k].id, &picked);
            items.append(&mut own);
        }
        k += 1;
    }
    items
}

/// The report holds the sources of the project and the items of its builds, and the index the tags that
/// count for them.
pub open spec fn is_prepared(
    report: CoverageReport,
    index: Map<Seq<u8>, InstrumentedCoverageItemIds>,
    files: Seq<SourceFile>,
    probes: Seq<InstrumentedCoverageProbe>,
    with_libs: bool,
    without_tests: bool,
) -> bool {
    let list = listed(files);
    let n = list.len() as int;
    let sources = counted(list, n, probes, with_libs, without_tests);
    let m = sources.len() as int;
    &&& forall|build: Seq<char>, id: usize| #[trigger]
        report.path_of(build, id) == registered_path(list, n, build, id)
    &&& forall|build: Seq<char>, path: Seq<char>| #[trigger]
        report.id_of(build, path) == registered_id(list, n, build, path)
    &&& forall|build: Seq<char>| #[trigger]
        report.items_of(build) == (if has_build(sources, m, build) {
            Some(build_items(sources, m, probes, build))
        } else {
            None
        })
    &&& report.has_no_contracts()
    &&& index == index_sources(sources, m, probes)
}

/// Registers the sources of a project and finds the items of its builds, with the index of the tags
/// that count for them.
pub fn prepare(
    files: &Vec<SourceFile>,
    instrumentation: &InstrumentedCoverageMetadata,
    with_libs: bool,
    without_tests: bool,
) -> (prepared: (CoverageReport, InstrumentedCoverageTagIndex))
    ensures
        prepared.0.wf(),
        prepared.1.wf(),
        consistent(prepared.1@),
        is_prepared(
            prepared.0,
            prepared.1@,
            files@,
            instrumentation.probes@,
            with_libs,
            without_tests,
        ),
{
    let probes = &instrumentation.probes;
    let list = list_sources(files);
    let mut report = CoverageReport::new();
    let mut included: Table<ListedSource> = Table::new();
    let mut k: usize = 0;
    while k < list.len()
        invariant
            k <= list@.len(),
            report.wf(),
            report.has_no_contracts(),
            included.wf(),
            forall|build: Seq<char>, id: usize| #[trigger]
                report.path_of(build, id) == registered_path(list@, k as int, build, id),
            forall|build: Seq<char>, path: Seq<char>| #[trigger]
                report.id_of(build, path) == registered_id(list@, k as int, build, path),
            forall|build: Seq<char>| (#[trigger] report.items_of(build)) is None,
            included.entries@ == counted(list@, k as int, probes@, with_libs, without_tests),
        decreases list@.len() - k,
    {
        let source = &list[k];
        let ghost earlier = report;
        report.add_source(source.build_id.clone(), source.id as usize, source.path.clone());
        assert forall|build: Seq<char>| (#[trigger] report.items_of(build)) is None by {
            assert(earlier.items_of(build) is None);
        }
        if (with_libs || !source.in_library) && (!without_tests || !source.is_test) {
            let own = pick_probes(probes, source);
            if own.len() > 0 {
                included.put(source.clone());
            }
        }
        k += 1;
    }
    let sources = included.entries;
    let mut k: usize = 0;
    while k < sources.len()
        invariant
            k <= sources@.len(),
            report.wf(),
            report.has_no_contracts(),
            forall|build: Seq<char>, id: usize| #[trigger]
                report.path_of(build, id) == registered_path(list@, list@.len() as int, build, id),
            forall|build: Seq<char>, path: Seq<char>| #[trigger]
                report.id_of(build, path) == registered_id(list@, list@.len() as int, build, path),
            forall|build: Seq<char>| #[trigger]
                report.items_of(build) == (if has_build(sources@, k as int, build) {
                    Some(build_items(sources@, sources@.len() as int, probes@, build))
                } else {
                    None
                }),
        decreases sources@.len() - k,
    {
        let build_id = &sources[k].build_id;
        let ghost earlier = report;
        let key = make_text_key(build_id.as_str());
        let known = report.analyses.find(&key).is_some();
        assert(known == (earlier.items_of(build_id@) is Some));
        if !known {
            let items = collect_build_items(&sources, probes, build_id);
            report.add_analysis(build_id.clone(), SourceAnalysis { items });
        }
        proof {
            assert forall|build: Seq<char>| has_build(sources@, k + 1, build) == (has_build(
                sources@,
                k as int,
                build,
            ) || build == build_id@) by {
                if has_build(sources@, k as int, build) {
                    let j = choose|j: int| 0 <= j < k && (#[trigger] sources@[j]).build_id@ == build;
                    assert(0 <= j < k + 1 && sources@[j].build_id@ == build);
                }
                if build == build_id@ {
                    assert(sources@[k as int].build_id@ == build);
                }
            }
            assert forall|build: Seq<char>, id: usize| #[trigger]
                report.path_of(build, id) == registered_path(list@, list@.len() as int, build, id) by {
                assert(earlier.path_of(build, id) == registered_path(list@, list@.len() as int, build, id));
            }
            assert forall|build: Seq<char>, path: Seq<char>| #[trigger]
                report.id_of(build, path) == registered_id(list@, list@.len() as int, build, path) by {
                assert(earlier.id_of(build, path) == registered_id(list@, list@.len() as int, build, path));
            }
            assert forall|build: Seq<char>| #[trigger]
                report.items_of(build) == (if has_build(sources@, k + 1, build) {
                    Some(build_items(sources@, sources@.len() as int, probes@, build))
                } else {
                    None
                }) by {
                let _ = earlier.items_of(build);
                assert(has_build(sources@, k + 1, build) == (has_build(sources@, k as int, build) || build
                    == build_id@));
            }
        }
        k += 1;
    }
    let mut index = InstrumentedCoverageTagIndex::new();
    let mut k: usize = 0;
    while k < sources.len()
        invariant
            k <= sources@.len(),
            report.wf(),
            report.has_no_contracts(),
            index.wf(),
            forall|build: Seq<char>| #[trigger]
                report.items_of(build) == (if has_build(sources@, sources@.len() as int, build) {
                    Some(build_items(sources@, sources@.len() as int, probes@, build))
                } else {
                    None
                }),
            index@ == index_sources(sources@, k as int, probes@),
        decreases sources@.len() - k,
    {
        let source = &sources[k];
        let key = make_text_key(source.build_id.as_str());
        let own = pick_probes(probes, source);
        assert(has_build(sources@, sources@.len() as int, source.build_id@));
        assert(report.items_of(source.build_id@) is Some);
        if let Some(at) = report.analyses.find(&key) {
            let items = &report.analyses.entries[at].analysis.items;
            assert(items@ == build_items(sources@, sources@.len() as int, probes@, source.build_id@));
            let mut n: usize = 0;
            while n < own.len()
                invariant
                    n <= own@.len(),
                    index.wf(),
                    index@ == index_probes(index_sources(sources@, k as int, probes@), items@, *source, own@, n as int),
                decreases own@.len() - n,
            {
                match resolve_probe(items, source, &own[n]) {
                    Some(ids) => index.insert(own[n].tag, ids),
                    None => {},
                }
                n += 1;
            }
        }
        k += 1;
    }
    proof {
        assert forall|build: Seq<char>|
            (#[trigger] build_items(sources@, sources@.len() as int, probes@, build)).len() <= usize::MAX by {
            if has_build(sources@, sources@.len() as int, build) {
                assert(report.items_of(build) is Some);
                assert(report.analyses@[text_key(build)].analysis.items.len() <= usize::MAX);
            } else {
                other_build_is_empty(sources@, sources@.len() as int, probes@, build);
            }
        }
        index_is_consistent(sources@, probes@);
    }
    (report, index)
}

proof fn other_build_is_empty(
    sources: Seq<ListedSource>,
    n: int,
    probes: Seq<InstrumentedCoverageProbe>,
    build: Seq<char>,
)
    requires
        n <= sources.len(),
        !has_build(sources, sources.len() as int, build),
    ensures
        build_items(sources, n, probes, build).len() == 0,
    decreases n,
{
    if n > 0 {
        other_build_is_empty(sources, n - 1, probes, build);
    }
}

}
