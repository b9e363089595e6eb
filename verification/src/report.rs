//! The coverage report: the sources of every build and the items found in them.
use crate::hit_maps::HitMap;
use crate::items::CoverageItem;
use crate::order::Keyed;
use crate::paths::{keys_tell_paths, path_key, push_path_key, same_path};
use crate::table::{update_is_with_entry, with_entry_by_key, Table};
use crate::text::{push_text_key, text_key, text_key_injective};
use crate::version::{same_version, version_key, version_key_injective, Version};
use vstd::prelude::*;

verus! {

/// The path of a source of a build.
#[derive(Debug)]
pub struct SourceEntry {
    pub build_id: String,
    pub source_id: usize,
    pub path: String,
}

/// The id of a source of a build, found by its path.
#[derive(Debug)]
pub struct PathEntry {
    pub build_id: String,
    pub path: String,
    pub source_id: usize,
}

/// The items of a build.
#[derive(Debug)]
pub struct SourceAnalysis {
    pub items: Vec<CoverageItem>,
}

/// The analysis of a build.
#[derive(Debug)]
pub struct AnalysisEntry {
    pub build_id: String,
    pub analysis: SourceAnalysis,
}

/// A contract of a build.
#[derive(Debug)]
pub struct ContractId {
    pub version: Version,
    pub build_id: String,
    pub source_id: usize,
    pub contract_name: String,
}

/// The instruction whose hits are those of an item.
#[derive(Clone, Copy, Debug, PartialEq, Eq, Structural)]
pub struct ItemAnchor {
    pub instruction: u32,
    pub item_id: usize,
}

/// The anchors of a contract, in its creation code and in its deployed code.
#[derive(Debug)]
pub struct AnchorEntry {
    pub contract_id: ContractId,
    pub creation: Vec<ItemAnchor>,
    pub runtime: Vec<ItemAnchor>,
}

/// What an item is counted by that has no instructions of its own.
#[derive(Clone, Copy, Debug, PartialEq, Eq, Structural)]
pub enum ExecutionKind {
    /// The contract is created.
    Creation,
    /// A call without data is received.
    Receive,
    /// A call is made that no function is there for.
    Fallback,
}

/// An item that is counted by what happens to its contract.
#[derive(Clone, Copy, Debug, PartialEq, Eq, Structural)]
pub struct ExecutionAnchor {
    pub kind: ExecutionKind,
    pub item_id: usize,
}

/// The items of a contract that are counted by what happens to it, and how it can be called.
#[derive(Debug)]
pub struct ExecutionEntry {
    pub contract_id: ContractId,
    pub anchors: Vec<ExecutionAnchor>,
    pub function_selectors: Vec<[u8; 4]>,
    pub has_receive: bool,
    pub fallback_payable: bool,
}

/// The place in the sources that an instruction comes from.
#[derive(Clone, Copy, Debug, PartialEq, Eq, Structural)]
pub struct SourceElement {
    pub offset: u32,
    pub length: u32,
    /// The source's id, if there is one.
    pub index: Option<u32>,
}

/// Where the instructions of a contract come from, in its creation code and in its deployed code.
#[derive(Debug)]
pub struct SourceMapEntry {
    pub contract_id: ContractId,
    pub creation: Vec<SourceElement>,
    pub runtime: Vec<SourceElement>,
}

/// The hits of a contract's instructions.
pub struct BytecodeEntry {
    pub contract_id: ContractId,
    pub hits: HitMap,
}

/// Two ids are those of the same contract.
pub open spec fn same_contract(a: ContractId, b: ContractId) -> bool {
    &&& same_version(a.version, b.version)
    &&& a.build_id@ == b.build_id@
    &&& a.source_id == b.source_id
    &&& a.contract_name@ == b.contract_name@
}

/// The key of a contract.
pub open spec fn contract_key(id: ContractId) -> Seq<u64> {
    text_key(id.build_id@) + seq![id.source_id as u64] + text_key(id.contract_name@) + version_key(id.version)
}

/// Contracts with the same key are the same.
pub proof fn contract_key_injective(a: ContractId, b: ContractId)
    requires
        contract_key(a) == contract_key(b),
    ensures
        same_contract(a, b),
{
    let x = seq![a.source_id as u64] + text_key(a.contract_name@) + version_key(a.version);
    let y = seq![b.source_id as u64] + text_key(b.contract_name@) + version_key(b.version);
    assert(contract_key(a) =~= text_key(a.build_id@) + x);
    assert(contract_key(b) =~= text_key(b.build_id@) + y);
    text_key_injective(a.build_id@, x, b.build_id@, y);
    assert(x[0] == a.source_id && y[0] == b.source_id);
    assert(x.skip(1) =~= text_key(a.contract_name@) + version_key(a.version));
    assert(y.skip(1) =~= text_key(b.contract_name@) + version_key(b.version));
    text_key_injective(a.contract_name@, version_key(a.version), b.contract_name@, version_key(b.version));
    assert(version_key(a.version) + Seq::<u64>::empty() =~= version_key(a.version));
    assert(version_key(b.version) + Seq::<u64>::empty() =~= version_key(b.version));
    version_key_injective(a.version, Seq::empty(), b.version, Seq::empty());
}

impl Clone for ContractId {
    fn clone(&self) -> (copy: Self)
        ensures
            copy == *self,
    {
        ContractId {
            version: self.version.clone(),
            build_id: self.build_id.clone(),
            source_id: self.source_id,
            contract_name: self.contract_name.clone(),
        }
    }
}

impl ContractId {
    /// Computes the key of the contract.
    pub fn make_key(&self) -> (key: Vec<u64>)
        ensures
            key@ == contract_key(*self),
    {
        let mut key = make_numbered_key(self.build_id.as_str(), self.source_id);
        push_text_key(&mut key, self.contract_name.as_str());
        self.version.push_key(&mut key);
        assert(key@ =~= contract_key(*self));
        key
    }
}

impl Keyed for AnchorEntry {
    open spec fn sort_key(&self) -> Seq<u64> {
        contract_key(self.contract_id)
    }

    fn make_key(&self) -> (key: Vec<u64>) {
        self.contract_id.make_key()
    }
}

impl Keyed for ExecutionEntry {
    open spec fn sort_key(&self) -> Seq<u64> {
        contract_key(self.contract_id)
    }

    fn make_key(&self) -> (key: Vec<u64>) {
        self.contract_id.make_key()
    }
}

impl Keyed for SourceMapEntry {
    open spec fn sort_key(&self) -> Seq<u64> {
        contract_key(self.contract_id)
    }

    fn make_key(&self) -> (key: Vec<u64>) {
        self.contract_id.make_key()
    }
}

impl Keyed for BytecodeEntry {
    open spec fn sort_key(&self) -> Seq<u64> {
        contract_key(self.contract_id)
    }

    fn make_key(&self) -> (key: Vec<u64>) {
        self.contract_id.make_key()
    }
}

/// The key of something that has a number in a build.
pub open spec fn numbered_key(build: Seq<char>, id: usize) -> Seq<u64> {
    text_key(build) + seq![id as u64]
}

/// Different numbers and different builds have different keys.
pub proof fn numbered_key_injective(a: Seq<char>, x: usize, b: Seq<char>, y: usize)
    requires
        numbered_key(a, x) == numbered_key(b, y),
    ensures
        a == b,
        x == y,
{
    text_key_injective(a, seq![x as u64], b, seq![y as u64]);
    assert(seq![x as u64][0] == seq![y as u64][0]);
}

/// Different texts have different keys.
pub proof fn build_key_injective(a: Seq<char>, b: Seq<char>)
    requires
        text_key(a) == text_key(b),
    ensures
        a == b,
{
    assert(text_key(a) + Seq::<u64>::empty() =~= text_key(a));
    assert(text_key(b) + Seq::<u64>::empty() =~= text_key(b));
    text_key_injective(a, Seq::empty(), b, Seq::empty());
}

/// Computes the key of something that has a number in a build.
pub fn make_numbered_key(build: &str, id: usize) -> (key: Vec<u64>)
    ensures
        key@ == numbered_key(build@, id),
{
    let mut key: Vec<u64> = Vec::new();
    push_text_key(&mut key, build);
    key.push(id as u64);
    assert(key@ =~= numbered_key(build@, id));
    key
}

/// Computes the key of a text.
pub fn make_text_key(s: &str) -> (key: Vec<u64>)
    ensures
        key@ == text_key(s@),
{
    let mut key: Vec<u64> = Vec::new();
    push_text_key(&mut key, s);
    assert(key@ =~= text_key(s@));
    key
}

impl Keyed for SourceEntry {
    open spec fn sort_key(&self) -> Seq<u64> {
        numbered_key(self.build_id@, self.source_id)
    }

    fn make_key(&self) -> (key: Vec<u64>) {
        make_numbered_key(self.build_id.as_str(), self.source_id)
    }
}

impl Keyed for PathEntry {
    open spec fn sort_key(&self) -> Seq<u64> {
        text_key(self.build_id@) + path_key(self.path@)
    }

    fn make_key(&self) -> (key: Vec<u64>) {
        let mut key = make_text_key(self.build_id.as_str());
        push_path_key(&mut key, self.path.as_str());
        key
    }
}

impl Keyed for AnalysisEntry {
    open spec fn sort_key(&self) -> Seq<u64> {
        text_key(self.build_id@)
    }

    fn make_key(&self) -> (key: Vec<u64>) {
        make_text_key(self.build_id.as_str())
    }
}

/// The sources and items of a project, build by build.
pub struct CoverageReport {
    /// The path of every source.
    pub sources: Table<SourceEntry>,
    /// The source id of every path.
    pub source_ids: Table<PathEntry>,
    /// The items of every build.
    pub analyses: Table<AnalysisEntry>,
    /// The anchors of every contract.
    pub anchors: Table<AnchorEntry>,
    /// What is counted by what happens to every contract.
    pub executions: Table<ExecutionEntry>,
    /// Where the instructions of every contract come from.
    pub source_maps: Table<SourceMapEntry>,
    /// The hits of the instructions of every contract.
    pub bytecode_hits: Table<BytecodeEntry>,
}

impl CoverageReport {
    /// Every table is in order.
    pub open spec fn wf(&self) -> bool {
        &&& self.sources.wf()
        &&& self.source_ids.wf()
        &&& self.analyses.wf()
        &&& self.anchors.wf()
        &&& self.executions.wf()
        &&& self.source_maps.wf()
        &&& self.bytecode_hits.wf()
        &&& forall|key: Seq<u64>| #[trigger] self.bytecode_hits@.contains_key(key) ==> self.bytecode_hits@[key].hits.wf()
    }

    /// What is known of the contracts is as in `other`.
    pub open spec fn same_contracts(&self, other: &CoverageReport) -> bool {
        &&& self.anchors == other.anchors
        &&& self.executions == other.executions
        &&& self.source_maps == other.source_maps
        &&& self.bytecode_hits == other.bytecode_hits
    }

    /// Nothing is known of any contract: no anchors, no source maps and no hits of instructions.
    pub open spec fn has_no_contracts(&self) -> bool {
        &&& self.anchors.entries@.len() == 0
        &&& self.executions.entries@.len() == 0
        &&& self.source_maps.entries@.len() == 0
        &&& self.bytecode_hits.entries@.len() == 0
    }

    /// The registered sources are as in `other`.
    pub open spec fn same_sources(&self, other: &CoverageReport) -> bool {
        self.sources == other.sources && self.source_ids == other.source_ids
    }

    /// The anchors of a contract in its creation code or in its deployed code.
    pub open spec fn anchors_of(&self, id: ContractId, is_deployed_code: bool) -> Seq<ItemAnchor> {
        if self.anchors@.contains_key(contract_key(id)) {
            if is_deployed_code {
                self.anchors@[contract_key(id)].runtime@
            } else {
                self.anchors@[contract_key(id)].creation@
            }
        } else {
            Seq::empty()
        }
    }

    /// The path of a source of a build.
    pub open spec fn path_of(&self, build: Seq<char>, id: usize) -> Option<Seq<char>> {
        if self.sources@.contains_key(numbered_key(build, id)) {
            Some(self.sources@[numbered_key(build, id)].path@)
        } else {
            None
        }
    }

    /// The source id of a path in a build.
    pub open spec fn id_of(&self, build: Seq<char>, path: Seq<char>) -> Option<usize> {
        let key = text_key(build) + path_key(path);
        if self.source_ids@.contains_key(key) {
            Some(self.source_ids@[key].source_id)
        } else {
            None
        }
    }

    /// The items of a build.
    pub open spec fn items_of(&self, build: Seq<char>) -> Option<Seq<CoverageItem>> {
        if self.analyses@.contains_key(text_key(build)) {
            Some(self.analyses@[text_key(build)].analysis.items@)
        } else {
            None
        }
    }

    /// A report without sources.
    pub fn new() -> (report: Self)
        ensures
            report.wf(),
            forall|build: Seq<char>, id: usize| (#[trigger] report.path_of(build, id)) is None,
            forall|build: Seq<char>, path: Seq<char>| (#[trigger] report.id_of(build, path)) is None,
            forall|build: Seq<char>| (#[trigger] report.items_of(build)) is None,
            report.analyses.entries@ == Seq::<AnalysisEntry>::empty(),
            report.sources.entries@ == Seq::<SourceEntry>::empty(),
            report.anchors.entries@ == Seq::<AnchorEntry>::empty(),
            report.executions.entries@ == Seq::<ExecutionEntry>::empty(),
            report.source_maps.entries@ == Seq::<SourceMapEntry>::empty(),
            report.bytecode_hits.entries@ == Seq::<BytecodeEntry>::empty(),
    {
        CoverageReport {
            sources: Table::new(),
            source_ids: Table::new(),
            analyses: Table::new(),
            anchors: Table::new(),
            executions: Table::new(),
            source_maps: Table::new(),
            bytecode_hits: Table::new(),
        }
    }

    /// Registers a source of a build. A path that was registered under the same id is replaced, and
    /// so is the id under which the same path was registered.
    pub fn add_source(&mut self, build_id: String, source_id: usize, path: String)
        requires
            old(self).wf(),
        ensures
            final(self).wf(),
            final(self).analyses == old(self).analyses,
            final(self).same_contracts(old(self)),
            forall|b: Seq<char>, i: usize| #[trigger]
                final(self).path_of(b, i) == (if b == build_id@ && i == source_id {
                    Some(path@)
                } else {
                    old(self).path_of(b, i)
                }),
            forall|b: Seq<char>, p: Seq<char>| #[trigger]
                final(self).id_of(b, p) == (if b == build_id@ && same_path(path@, p) {
                    Some(source_id)
                } else {
                    old(self).id_of(b, p)
                }),
    {
        let entry = SourceEntry { build_id: build_id.clone(), source_id, path: path.clone() };
        let back = PathEntry { build_id, path, source_id };
        self.sources.put(entry);
        self.source_ids.put(back);
        proof {
            assert forall|b: Seq<char>, i: usize| #[trigger]
                self.path_of(b, i) == (if b == build_id@ && i == source_id {
                    Some(path@)
                } else {
                    old(self).path_of(b, i)
                }) by {
                if numbered_key(b, i) == numbered_key(build_id@, source_id) {
                    numbered_key_injective(b, i, build_id@, source_id);
                }
            }
            assert forall|b: Seq<char>, p: Seq<char>| #[trigger]
                self.id_of(b, p) == (if b == build_id@ && same_path(path@, p) {
                    Some(source_id)
                } else {
                    old(self).id_of(b, p)
                }) by {
                keys_tell_paths(p, path@);
                if text_key(b) + path_key(p) == text_key(build_id@) + path_key(path@) {
                    text_key_injective(b, path_key(p), build_id@, path_key(path@));
                }
            }
        }
    }

    /// The path of a source of a build.
    pub fn get_source_path(&self, build_id: &str, source_id: usize) -> (path: Option<&String>)
        requires
            self.wf(),
        ensures
            path is Some <==> self.path_of(build_id@, source_id) is Some,
            path is Some ==> path->0@ == self.path_of(build_id@, source_id)->0,
    {
        let key = make_numbered_key(build_id, source_id);
        match self.sources.find(&key) {
            Some(i) => Some(&self.sources.entries[i].path),
            None => None,
        }
    }

    /// The source id of a path in a build.
    pub fn get_source_id(&self, build_id: &str, path: &str) -> (id: Option<usize>)
        requires
            self.wf(),
        ensures
            id == self.id_of(build_id@, path@),
    {
        let mut key = make_text_key(build_id);
        push_path_key(&mut key, path);
        match self.source_ids.find(&key) {
            Some(i) => Some(self.source_ids.entries[i].source_id),
            None => None,
        }
    }

    /// Sets the items of a build.
    pub fn add_analysis(&mut self, build_id: String, analysis: SourceAnalysis)
        requires
            old(self).wf(),
        ensures
            final(self).wf(),
            final(self).same_sources(old(self)),
            final(self).same_contracts(old(self)),
            forall|b: Seq<char>| #[trigger]
                final(self).items_of(b) == (if b == build_id@ {
                    Some(analysis.items@)
                } else {
                    old(self).items_of(b)
                }),
    {
        let entry = AnalysisEntry { build_id, analysis };
        self.analyses.put(entry);
        proof {
            assert forall|b: Seq<char>| #[trigger]
                self.items_of(b) == (if b == build_id@ {
                    Some(analysis.items@)
                } else {
                    old(self).items_of(b)
                }) by {
                if text_key(b) == text_key(build_id@) {
                    build_key_injective(b, build_id@);
                }
            }
        }
    }

    /// Adds hits to an item of a build; hits of an item that is not there are dropped.
    pub fn add_item_hits(&mut self, build_id: &str, item_id: usize, hits: u32)
        requires
            old(self).wf(),
        ensures
            final(self).wf(),
            final(self).same_sources(old(self)),
            final(self).same_contracts(old(self)),
            forall|b: Seq<char>| #[trigger]
                final(self).items_of(b) == (match old(self).items_of(b) {
                    Some(items) => Some(
                        if b == build_id@ && item_id < items.len() {
                            items.update(item_id as int, with_hits(items[item_id as int], hits as nat))
                        } else {
                            items
                        },
                    ),
                    None => None,
                }),
    {
        let key = make_text_key(build_id);
        let ghost before = self.analyses.entries@;
        match self.analyses.find(&key) {
            Some(at) => {
                if item_id < self.analyses.entries[at].analysis.items.len() {
                    let old_hits: u32 = self.analyses.entries[at].analysis.items[item_id].hits;
                    let new_hits: u32 = old_hits.saturating_add(hits);
                    self.analyses.entries[at].analysis.items[item_id].hits = new_hits;
                    proof {
                        let entry = self.analyses.entries@[at as int];
                        assert(self.analyses.entries@ =~= before.update(at as int, entry));
                        assert(entry.sort_key() == before[at as int].sort_key());
                        update_is_with_entry(before, at as int, entry);
                        with_entry_by_key(before, entry);
                        let items = before[at as int].analysis.items@;
                        assert(entry.analysis.items@ =~= items.update(
                            item_id as int,
                            with_hits(items[item_id as int], hits as nat),
                        ));
                        assert forall|b: Seq<char>| #[trigger] text_key(b) == text_key(build_id@) implies b == build_id@ by {
                            build_key_injective(b, build_id@);
                        }
                    }
                }
            },
            None => {},
        }
    }
}

/// An item with more hits, as far as it can hold them.
pub open spec fn with_hits(item: CoverageItem, more: nat) -> CoverageItem {
    CoverageItem {
        hits: if item.hits + more > u32::MAX { u32::MAX } else { (item.hits + more) as u32 },
        ..item
    }
}

}
