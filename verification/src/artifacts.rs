//! What the compiler gave for each contract.
use crate::hit_maps::copy_of;
use crate::instrumented::{is_vyper, listing, ListedSource, SourceFile};
use crate::items::CoverageItem;
use crate::order::Keyed;
use crate::paths::{keys_tell_paths, path_has_extension, same_path};
use crate::positions::{join_path, joined};
use crate::report::{
    contract_key, make_numbered_key, numbered_key, numbered_key_injective, AnchorEntry, ContractId, CoverageReport,
    ExecutionAnchor, ExecutionEntry, SourceAnalysis, SourceElement, SourceMapEntry,
};
use crate::sums::{joined_empty, joined_push};
use crate::table::Table;
use crate::version::Version;
use vstd::prelude::*;

verus! {

/// The name of a compiled contract.
#[derive(Debug)]
pub struct ArtifactId {
    pub version: Version,
    pub build_id: String,
    /// The path of the source.
    pub source: String,
    pub name: String,
}

/// What the interface of a contract says of how it can be called.
#[derive(Debug)]
pub struct AbiInfo {
    pub function_selectors: Vec<[u8; 4]>,
    pub has_receive: bool,
    pub fallback_payable: bool,
}

/// The parts of a compiled contract; any of them may be missing. The code is linked.
#[derive(Debug)]
pub struct ArtifactParts {
    pub abi: Option<AbiInfo>,
    pub source_map: Option<Vec<SourceElement>>,
    pub bytecode: Option<Vec<u8>>,
    pub deployed_source_map: Option<Vec<SourceElement>>,
    pub deployed_bytecode: Option<Vec<u8>>,
}

/// Some code, with the places in the sources that its instructions come from.
#[derive(Debug)]
pub struct BytecodeData {
    pub source_map: Vec<SourceElement>,
    pub bytecode: Vec<u8>,
    /// The offset of every instruction. Places are given per instruction, hits per offset.
    pub ic_pc_map: Vec<usize>,
}

/// A compiled contract.
#[derive(Debug)]
pub struct ArtifactData {
    pub contract_id: ContractId,
    pub creation: BytecodeData,
    pub deployed: BytecodeData,
    pub function_selectors: Vec<[u8; 4]>,
    pub has_receive: bool,
    pub fallback_payable: bool,
}

/// How many bytes of data follow an instruction.
pub open spec fn push_size(opcode: u8) -> int {
    if 0x60 <= opcode && opcode <= 0x7f { opcode - 0x5f } else { 0 }
}

/// The offsets of the instructions from `pc` on.
pub open spec fn instructions_from(code: Seq<u8>, pc: int) -> Seq<int>
    decreases (if pc <= code.len() { code.len() - pc } else { 0 }),
{
    if pc < 0 || pc >= code.len() {
        Seq::empty()
    } else {
        seq![pc] + instructions_from(code, pc + 1 + push_size(code[pc]))
    }
}

/// The first instruction stands at the beginning, every other one behind the one before it and the data that it
/// pushes, and none is missing: behind the last one and its data the code is at its end.
pub proof fn instructions_follow_each_other(code: Seq<u8>)
    ensures
        ({
            let pcs = instructions_from(code, 0);
            &&& code.len() == 0 <==> pcs.len() == 0
            &&& pcs.len() > 0 ==> pcs[0] == 0
            &&& forall|i: int| 0 <= i < pcs.len() ==> 0 <= #[trigger] pcs[i] < code.len()
            &&& forall|i: int|
                0 <= i < pcs.len() ==> (if i + 1 < pcs.len() {
                    pcs[i + 1]
                } else {
                    code.len() as int
                }) <= behind(code, #[trigger] pcs[i]) && (i + 1 < pcs.len() ==> pcs[i + 1] == behind(code, pcs[i]))
        }),
{
    instructions_follow_from(code, 0);
}

/// The offset behind an instruction: those of `PUSH1`, 0x60, to `PUSH32`, 0x7f, have one byte of data to thirty-two.
pub open spec fn behind(code: Seq<u8>, pc: int) -> int {
    if 0x60 <= code[pc] <= 0x7f { pc + 2 + (code[pc] - 0x60) } else { pc + 1 }
}

proof fn instructions_follow_from(code: Seq<u8>, pc: int)
    requires
        0 <= pc,
    ensures
        ({
            let pcs = instructions_from(code, pc);
            &&& pc >= code.len() <==> pcs.len() == 0
            &&& pcs.len() > 0 ==> pcs[0] == pc
            &&& forall|i: int| 0 <= i < pcs.len() ==> 0 <= #[trigger] pcs[i] < code.len()
            &&& forall|i: int|
                0 <= i < pcs.len() ==> (if i + 1 < pcs.len() {
                    pcs[i + 1]
                } else {
                    code.len() as int
                }) <= behind(code, #[trigger] pcs[i]) && (i + 1 < pcs.len() ==> pcs[i + 1] == behind(code, pcs[i]))
        }),
    decreases (if pc <= code.len() { code.len() - pc } else { 0 }),
{
    if pc < code.len() {
        let next = pc + 1 + push_size(code[pc]);
        instructions_follow_from(code, next);
        let rest = instructions_from(code, next);
        let pcs = instructions_from(code, pc);
        assert(pcs.len() == rest.len() + 1);
        assert forall|i: int| 0 <= i < pcs.len() implies (if i + 1 < pcs.len() {
            pcs[i + 1]
        } else {
            code.len() as int
        }) <= behind(code, #[trigger] pcs[i]) && (i + 1 < pcs.len() ==> pcs[i + 1] == behind(code, pcs[i])) by {
            if i > 0 {
                assert(pcs[i] == rest[i - 1]);
                if i + 1 < pcs.len() {
                    assert(pcs[i + 1] == rest[i]);
                }
            } else if pcs.len() > 1 {
                assert(pcs[1] == rest[0]);
            }
        }
        assert forall|i: int| 0 <= i < pcs.len() implies 0 <= #[trigger] pcs[i] < code.len() by {
            if i > 0 {
                assert(pcs[i] == rest[i - 1]);
            }
        }
    }
}

/// The offsets as plain numbers.
pub open spec fn as_offsets(pcs: Seq<usize>) -> Seq<int> {
    pcs.map_values(|pc: usize| pc as int)
}

/// Finds the offset of every instruction.
pub fn ic_pc_map(code: &Vec<u8>) -> (map: Vec<usize>)
    ensures
        as_offsets(map@) == instructions_from(code@, 0),
{
    let mut map: Vec<usize> = Vec::new();
    let mut pc: usize = 0;
    assert(as_offsets(map@) + instructions_from(code@, 0) =~= instructions_from(code@, 0));
    while pc < code.len()
        invariant
            as_offsets(map@) + instructions_from(code@, pc as int) == instructions_from(code@, 0),
        decreases code@.len() - pc,
    {
        let opcode: u8 = code[pc];
        let size: usize = if 0x60 <= opcode && opcode <= 0x7f { (opcode - 0x5f) as usize } else { 0 };
        let ghost before = map@;
        map.push(pc);
        let left: usize = code.len() - pc;
        proof {
            assert(as_offsets(map@) =~= as_offsets(before) + seq![pc as int]);
            assert(as_offsets(map@) + instructions_from(code@, pc + 1 + size) =~= as_offsets(before)
                + instructions_from(code@, pc as int));
        }
        if size + 1 >= left {
            assert(as_offsets(map@) =~= as_offsets(map@) + instructions_from(code@, pc + 1 + size));
            return map;
        }
        pc = pc + 1 + size;
    }
    assert(as_offsets(map@) =~= as_offsets(map@) + instructions_from(code@, pc as int));
    map
}

impl BytecodeData {
    /// Code with the places that its instructions come from.
    pub fn new(source_map: Vec<SourceElement>, bytecode: Vec<u8>) -> (data: Self)
        ensures
            data.source_map == source_map,
            data.bytecode == bytecode,
            as_offsets(data.ic_pc_map@) == instructions_from(bytecode@, 0),
    {
        let ic_pc_map = ic_pc_map(&bytecode);
        BytecodeData { source_map, bytecode, ic_pc_map }
    }
}

/// All parts are there that coverage needs.
pub open spec fn is_complete(parts: ArtifactParts) -> bool {
    &&& parts.source_map is Some
    &&& parts.bytecode is Some
    &&& parts.deployed_source_map is Some
    &&& parts.deployed_bytecode is Some
}

impl ArtifactData {
    /// A compiled contract; none where its code or the places that the code comes from are missing.
    pub fn new(id: &ArtifactId, source_id: usize, parts: ArtifactParts) -> (data: Option<Self>)
        ensures
            data is Some <==> is_complete(parts),
            data is Some ==> {
                let d = data->0;
                &&& d.contract_id == (ContractId {
                    version: id.version,
                    build_id: id.build_id,
                    source_id,
                    contract_name: id.name,
                })
                &&& d.creation.source_map == parts.source_map->0
                &&& d.creation.bytecode == parts.bytecode->0
                &&& as_offsets(d.creation.ic_pc_map@) == instructions_from(parts.bytecode->0@, 0)
                &&& d.deployed.source_map == parts.deployed_source_map->0
                &&& d.deployed.bytecode == parts.deployed_bytecode->0
                &&& as_offsets(d.deployed.ic_pc_map@) == instructions_from(parts.deployed_bytecode->0@, 0)
                &&& match parts.abi {
                    Some(abi) => d.function_selectors == abi.function_selectors && d.has_receive == abi.has_receive
                        && d.fallback_payable == abi.fallback_payable,
                    None => d.function_selectors@.len() == 0 && !d.has_receive && !d.fallback_payable,
                }
            },
    {
        match (parts.source_map, parts.bytecode, parts.deployed_source_map, parts.deployed_bytecode) {
            (Some(source_map), Some(bytecode), Some(deployed_source_map), Some(deployed_bytecode)) => {
                let abi = match parts.abi {
                    Some(abi) => abi,
                    None => AbiInfo { function_selectors: Vec::new(), has_receive: false, fallback_payable: false },
                };
                Some(
                    ArtifactData {
                        contract_id: ContractId {
                            version: id.version.clone(),
                            build_id: id.build_id.clone(),
                            source_id,
                            contract_name: id.name.clone(),
                        },
                        creation: BytecodeData::new(source_map, bytecode),
                        deployed: BytecodeData::new(deployed_source_map, deployed_bytecode),
                        function_selectors: abi.function_selectors,
                        has_receive: abi.has_receive,
                        fallback_payable: abi.fallback_payable,
                    },
                )
            },
            _ => None,
        }
    }
}

impl ArtifactData {
    /// What is counted by what happens to the contract, given the items that are, and how it can be called.
    pub fn execution_entry(&self, anchors: Vec<ExecutionAnchor>) -> (entry: ExecutionEntry)
        ensures
            entry.contract_id == self.contract_id,
            entry.anchors == anchors,
            entry.function_selectors@ == self.function_selectors@,
            entry.has_receive == self.has_receive,
            entry.fallback_payable == self.fallback_payable,
    {
        ExecutionEntry {
            contract_id: self.contract_id.clone(),
            anchors,
            function_selectors: copy_of(&self.function_selectors),
            has_receive: self.has_receive,
            fallback_payable: self.fallback_payable,
        }
    }
}

/// A source of a build that is analysed.
#[derive(Debug)]
pub struct BuildSource {
    pub build_id: String,
    pub id: u32,
    /// Where the file lies.
    pub path: String,
}

impl Keyed for BuildSource {
    open spec fn sort_key(&self) -> Seq<u64> {
        numbered_key(self.build_id@, self.id as usize)
    }

    fn make_key(&self) -> (key: Vec<u64>) {
        make_numbered_key(self.build_id.as_str(), self.id as usize)
    }
}

/// The first `n` ways in which a file was compiled.
pub open spec fn ways_of(file: SourceFile, n: int) -> Seq<ListedSource>
    decreases n,
{
    if n <= 0 {
        Seq::empty()
    } else {
        ways_of(file, n - 1).push(listing(file, file.sources@[n - 1]))
    }
}

/// All ways in which the first `n` files, Vyper files left out, were compiled.
pub open spec fn all_ways(files: Seq<SourceFile>, n: int) -> Seq<ListedSource>
    decreases n,
{
    if n <= 0 {
        Seq::empty()
    } else {
        let file = files[n - 1];
        all_ways(files, n - 1) + (if is_vyper(file.path@) {
            Seq::empty()
        } else {
            ways_of(file, file.sources@.len() as int)
        })
    }
}

/// The source is neither a library file nor a test that is left out.
pub open spec fn is_analysed(source: ListedSource, with_libs: bool, without_tests: bool) -> bool {
    (with_libs || !source.in_library) && (!without_tests || !source.is_test)
}

/// The last path that was listed for a build and an id.
pub open spec fn last_path(list: Seq<ListedSource>, build: Seq<char>, id: usize) -> Option<Seq<char>>
    decreases list.len(),
{
    if list.len() == 0 {
        None
    } else if list.last().build_id@ == build && list.last().id as usize == id {
        Some(list.last().path@)
    } else {
        last_path(list.drop_last(), build, id)
    }
}

/// The last id that was listed for a build and a path.
pub open spec fn last_id(list: Seq<ListedSource>, build: Seq<char>, path: Seq<char>) -> Option<usize>
    decreases list.len(),
{
    if list.len() == 0 {
        None
    } else if list.last().build_id@ == build && same_path(list.last().path@, path) {
        Some(list.last().id as usize)
    } else {
        last_id(list.drop_last(), build, path)
    }
}

/// The last path that was listed for a build and an id and is analysed.
pub open spec fn last_analysed(
    list: Seq<ListedSource>,
    with_libs: bool,
    without_tests: bool,
    build: Seq<char>,
    id: usize,
) -> Option<Seq<char>>
    decreases list.len(),
{
    if list.len() == 0 {
        None
    } else if list.last().build_id@ == build && list.last().id as usize == id && is_analysed(
        list.last(),
        with_libs,
        without_tests,
    ) {
        Some(list.last().path@)
    } else {
        last_analysed(list.drop_last(), with_libs, without_tests, build, id)
    }
}

/// Every way in which a file was compiled is registered, whatever the file holds and wherever it lies, unless it is a
/// Vyper file: if the build has no other path for the id, the id leads to the path of the file, and if it has no other
/// id for the path, the path leads to the id.
pub proof fn every_way_is_registered(files: Seq<SourceFile>, k: int, j: int)
    requires
        0 <= k < files.len(),
        0 <= j < files[k].sources@.len(),
        !is_vyper(files[k].path@),
    ensures
        ({
            let list = all_ways(files, files.len() as int);
            let source = files[k].sources@[j];
            let build = source.build_id@;
            let path = files[k].path@;
            &&& last_path(list, build, source.id as usize) is Some
            &&& last_id(list, build, path) is Some
            &&& (forall|a: int, b: int|
                0 <= a < files.len() && 0 <= b < (#[trigger] files[a]).sources@.len() && (
                #[trigger] files[a].sources@[b]).build_id@ == build && files[a].sources@[b].id == source.id
                    ==> files[a].path@ == path) ==> last_path(list, build, source.id as usize) == Some(path)
            &&& (forall|a: int, b: int|
                0 <= a < files.len() && 0 <= b < (#[trigger] files[a]).sources@.len() && (
                #[trigger] files[a].sources@[b]).build_id@ == build && same_path(files[a].path@, path)
                    ==> files[a].sources@[b].id == source.id) ==> last_id(list, build, path) == Some(
                source.id as usize,
            )
        }),
{
    let list = all_ways(files, files.len() as int);
    let source = files[k].sources@[j];
    let build = source.build_id@;
    let path = files[k].path@;
    let id = source.id as usize;
    way_is_listed(files, files.len() as int, k, j);
    let i = choose|i: int| 0 <= i < list.len() && list[i] == listing(files[k], source);
    keys_tell_paths(path, path);
    last_path_is_listed(list, build, id, i);
    last_id_is_listed(list, build, path, i);
    let m = choose|m: int|
        0 <= m < list.len() && (#[trigger] list[m]).build_id@ == build && list[m].id as usize == id && last_path(
            list,
            build,
            id,
        ) == Some(list[m].path@);
    let (a, b) = way_comes_from(files, files.len() as int, m);
    assert(files[a].sources@[b].build_id@ == build);
    let m = choose|m: int|
        0 <= m < list.len() && (#[trigger] list[m]).build_id@ == build && same_path(list[m].path@, path) && last_id(
            list,
            build,
            path,
        ) == Some(list[m].id as usize);
    let (a, b) = way_comes_from(files, files.len() as int, m);
    assert(files[a].sources@[b].build_id@ == build);
}

/// A source is analysed if it was compiled from a file that is no Vyper file, not in a library unless those are asked
/// for, and no test where those are left out; and nothing else is.
pub proof fn analysed_sources_are_asked_for(
    files: Seq<SourceFile>,
    with_libs: bool,
    without_tests: bool,
    build: Seq<char>,
    id: u32,
)
    ensures
        last_analysed(all_ways(files, files.len() as int), with_libs, without_tests, build, id as usize) is Some
            <==> exists|k: int, j: int|
            0 <= k < files.len() && 0 <= j < (#[trigger] files[k]).sources@.len() && (
            #[trigger] files[k].sources@[j]).build_id@ == build && files[k].sources@[j].id == id && !is_vyper(
                files[k].path@,
            ) && (files[k].in_library ==> with_libs) && (files[k].is_test ==> !without_tests),
{
    let list = all_ways(files, files.len() as int);
    analysed_is_listed(list, with_libs, without_tests, build, id as usize);
    if last_analysed(list, with_libs, without_tests, build, id as usize) is Some {
        let m = choose|m: int|
            0 <= m < list.len() && (#[trigger] list[m]).build_id@ == build && list[m].id as usize == id as usize
                && is_analysed(list[m], with_libs, without_tests);
        let (a, b) = way_comes_from(files, files.len() as int, m);
        assert(files[a].sources@[b].build_id@ == build);
    }
    if exists|k: int, j: int|
        0 <= k < files.len() && 0 <= j < (#[trigger] files[k]).sources@.len() && (
        #[trigger] files[k].sources@[j]).build_id@ == build && files[k].sources@[j].id == id && !is_vyper(
            files[k].path@,
        ) && (files[k].in_library ==> with_libs) && (files[k].is_test ==> !without_tests) {
        let (k, j) = choose|k: int, j: int|
            0 <= k < files.len() && 0 <= j < (#[trigger] files[k]).sources@.len() && (
            #[trigger] files[k].sources@[j]).build_id@ == build && files[k].sources@[j].id == id && !is_vyper(
                files[k].path@,
            ) && (files[k].in_library ==> with_libs) && (files[k].is_test ==> !without_tests);
        way_is_listed(files, files.len() as int, k, j);
        let i = choose|i: int| 0 <= i < list.len() && list[i] == listing(files[k], files[k].sources@[j]);
        assert(list[i].build_id@ == build && is_analysed(list[i], with_libs, without_tests));
    }
}

proof fn analysed_is_listed(
    list: Seq<ListedSource>,
    with_libs: bool,
    without_tests: bool,
    build: Seq<char>,
    id: usize,
)
    ensures
        last_analysed(list, with_libs, without_tests, build, id) is Some <==> exists|m: int|
            0 <= m < list.len() && (#[trigger] list[m]).build_id@ == build && list[m].id as usize == id && is_analysed(
                list[m],
                with_libs,
                without_tests,
            ),
    decreases list.len(),
{
    if list.len() > 0 {
        let before = list.drop_last();
        analysed_is_listed(before, with_libs, without_tests, build, id);
        assert(list[list.len() - 1] == list.last());
        assert forall|m: int| 0 <= m < before.len() implies #[trigger] before[m] == list[m] by {}
        if last_analysed(before, with_libs, without_tests, build, id) is Some {
            let m = choose|m: int|
                0 <= m < before.len() && (#[trigger] before[m]).build_id@ == build && before[m].id as usize == id
                    && is_analysed(before[m], with_libs, without_tests);
            assert(list[m] == before[m]);
        }
        if exists|m: int|
            0 <= m < list.len() && (#[trigger] list[m]).build_id@ == build && list[m].id as usize == id && is_analysed(
                list[m],
                with_libs,
                without_tests,
            ) {
            let m = choose|m: int|
                0 <= m < list.len() && (#[trigger] list[m]).build_id@ == build && list[m].id as usize == id
                    && is_analysed(list[m], with_libs, without_tests);
            if m < before.len() {
                assert(before[m] == list[m]);
            }
        }
    }
}

proof fn last_path_is_listed(list: Seq<ListedSource>, build: Seq<char>, id: usize, i: int)
    requires
        0 <= i < list.len(),
        list[i].build_id@ == build,
        list[i].id as usize == id,
    ensures
        exists|m: int|
            0 <= m < list.len() && (#[trigger] list[m]).build_id@ == build && list[m].id as usize == id && last_path(
                list,
                build,
                id,
            ) == Some(list[m].path@),
    decreases list.len(),
{
    let last = list[list.len() - 1];
    if last.build_id@ != build || last.id as usize != id {
        let before = list.drop_last();
        last_path_is_listed(before, build, id, i);
        let m = choose|m: int|
            0 <= m < before.len() && (#[trigger] before[m]).build_id@ == build && before[m].id as usize == id
                && last_path(before, build, id) == Some(before[m].path@);
        assert(list[m] == before[m]);
    }
}

proof fn last_id_is_listed(list: Seq<ListedSource>, build: Seq<char>, path: Seq<char>, i: int)
    requires
        0 <= i < list.len(),
        list[i].build_id@ == build,
        same_path(list[i].path@, path),
    ensures
        exists|m: int|
            0 <= m < list.len() && (#[trigger] list[m]).build_id@ == build && same_path(list[m].path@, path) && last_id(
                list,
                build,
                path,
            ) == Some(list[m].id as usize),
    decreases list.len(),
{
    let last = list[list.len() - 1];
    if last.build_id@ != build || !same_path(last.path@, path) {
        let before = list.drop_last();
        last_id_is_listed(before, build, path, i);
        let m = choose|m: int|
            0 <= m < before.len() && (#[trigger] before[m]).build_id@ == build && same_path(before[m].path@, path)
                && last_id(before, build, path) == Some(before[m].id as usize);
        assert(list[m] == before[m]);
    }
}

proof fn ways_are_listings(file: SourceFile, n: int)
    requires
        0 <= n <= file.sources@.len(),
    ensures
        ways_of(file, n).len() == n,
        forall|j: int| 0 <= j < n ==> #[trigger] ways_of(file, n)[j] == listing(file, file.sources@[j]),
    decreases n,
{
    if n > 0 {
        ways_are_listings(file, n - 1);
    }
}

proof fn way_is_listed(files: Seq<SourceFile>, n: int, k: int, j: int)
    requires
        0 <= k < n <= files.len(),
        0 <= j < files[k].sources@.len(),
        !is_vyper(files[k].path@),
    ensures
        all_ways(files, n).contains(listing(files[k], files[k].sources@[j])),
    decreases n,
{
    let way = listing(files[k], files[k].sources@[j]);
    let before = all_ways(files, n - 1);
    let all = all_ways(files, n);
    if k < n - 1 {
        way_is_listed(files, n - 1, k, j);
        let i = choose|i: int| 0 <= i < before.len() && before[i] == way;
        assert(all[i] == way);
    } else {
        ways_are_listings(files[k], files[k].sources@.len() as int);
        assert(ways_of(files[k], files[k].sources@.len() as int)[j] == way);
        assert(all[before.len() + j] == way);
    }
}

proof fn way_comes_from(files: Seq<SourceFile>, n: int, i: int) -> (place: (int, int))
    requires
        0 <= n <= files.len(),
        0 <= i < all_ways(files, n).len(),
    ensures
        0 <= place.0 < files.len(),
        0 <= place.1 < files[place.0].sources@.len(),
        !is_vyper(files[place.0].path@),
        all_ways(files, n)[i] == listing(files[place.0], files[place.0].sources@[place.1]),
    decreases n,
{
    let before = all_ways(files, n - 1);
    if i < before.len() {
        way_comes_from(files, n - 1, i)
    } else {
        let file = files[n - 1];
        ways_are_listings(file, file.sources@.len() as int);
        (n - 1, i - before.len())
    }
}

/// Where the file of a source of a build lies, according to a table.
pub open spec fn file_at(sources: Map<Seq<u64>, BuildSource>, build: Seq<char>, id: usize) -> Option<Seq<char>> {
    if sources.contains_key(numbered_key(build, id)) {
        Some(sources[numbered_key(build, id)].path@)
    } else {
        None
    }
}

/// Where the file of a path lies, if there is a path.
pub open spec fn opt_joined(root: Seq<char>, path: Option<Seq<char>>) -> Option<Seq<char>> {
    match path {
        Some(path) => Some(joined(root, path)),
        None => None,
    }
}

fn register_source(
    report: &mut CoverageReport,
    analysed: &mut Table<BuildSource>,
    source: &ListedSource,
    with_libs: bool,
    without_tests: bool,
    root: &str,
    Ghost(list): Ghost<Seq<ListedSource>>,
)
    requires
        old(report).wf(),
        old(analysed).wf(),
        forall|b: Seq<char>, i: usize| #[trigger] old(report).path_of(b, i) == last_path(list, b, i),
        forall|b: Seq<char>, p: Seq<char>| #[trigger] old(report).id_of(b, p) == last_id(list, b, p),
        forall|b: Seq<char>| (#[trigger] old(report).items_of(b)) is None,
        old(report).has_no_contracts(),
        forall|b: Seq<char>, i: usize| #[trigger]
            file_at(old(analysed)@, b, i) == opt_joined(
                root@,
                last_analysed(list, with_libs, without_tests, b, i),
            ),
    ensures
        final(report).wf(),
        final(analysed).wf(),
        forall|b: Seq<char>, i: usize| #[trigger]
            final(report).path_of(b, i) == last_path(list.push(*source), b, i),
        forall|b: Seq<char>, p: Seq<char>| #[trigger]
            final(report).id_of(b, p) == last_id(list.push(*source), b, p),
        forall|b: Seq<char>| (#[trigger] final(report).items_of(b)) is None,
        final(report).has_no_contracts(),
        forall|b: Seq<char>, i: usize| #[trigger]
            file_at(final(analysed)@, b, i) == opt_joined(
                root@,
                last_analysed(list.push(*source), with_libs, without_tests, b, i),
            ),
{
    assert(list.push(*source).drop_last() =~= list);
    report.add_source(source.build_id.clone(), source.id as usize, source.path.clone());
    assert forall|b: Seq<char>| (#[trigger] report.items_of(b)) is None by {
        assert(old(report).items_of(b) is None);
    }
    if (with_libs || !source.in_library) && (!without_tests || !source.is_test) {
        let file = join_path(root, source.path.as_str());
        analysed.put(BuildSource { build_id: source.build_id.clone(), id: source.id, path: file });
    }
    assert forall|b: Seq<char>, i: usize| #[trigger] file_at(analysed@, b, i) == opt_joined(
        root@,
        last_analysed(list.push(*source), with_libs, without_tests, b, i),
    ) by {
        let was = file_at(old(analysed)@, b, i);
        if numbered_key(b, i) == numbered_key(source.build_id@, source.id as usize) {
            numbered_key_injective(b, i, source.build_id@, source.id as usize);
        }
    }
}

/// Registers the sources of a project, and finds the files that are to be analysed for each build.
pub fn register_sources(
    files: &Vec<SourceFile>,
    with_libs: bool,
    without_tests: bool,
    root: &str,
) -> (registered: (CoverageReport, Table<BuildSource>))
    ensures
        registered.0.wf(),
        registered.1.wf(),
        ({
            let list = all_ways(files@, files@.len() as int);
            &&& forall|b: Seq<char>, i: usize| #[trigger] registered.0.path_of(b, i) == last_path(list, b, i)
            &&& forall|b: Seq<char>, p: Seq<char>| #[trigger] registered.0.id_of(b, p) == last_id(list, b, p)
            &&& forall|b: Seq<char>| (#[trigger] registered.0.items_of(b)) is None
            &&& registered.0.has_no_contracts()
            &&& forall|b: Seq<char>, i: usize| #[trigger]
                file_at(registered.1@, b, i) == opt_joined(
                    root@,
                    last_analysed(list, with_libs, without_tests, b, i),
                )
        }),
{
    let mut report = CoverageReport::new();
    let mut analysed: Table<BuildSource> = Table::new();
    let ghost mut list: Seq<ListedSource> = Seq::empty();
    let mut k: usize = 0;
    while k < files.len()
        invariant
            k <= files@.len(),
            list == all_ways(files@, k as int),
            report.wf(),
            analysed.wf(),
            forall|b: Seq<char>, i: usize| #[trigger] report.path_of(b, i) == last_path(list, b, i),
            forall|b: Seq<char>, p: Seq<char>| #[trigger] report.id_of(b, p) == last_id(list, b, p),
            forall|b: Seq<char>| (#[trigger] report.items_of(b)) is None,
            report.has_no_contracts(),
            forall|b: Seq<char>, i: usize| #[trigger]
                file_at(analysed@, b, i) == opt_joined(root@, last_analysed(list, with_libs, without_tests, b, i)),
        decreases files@.len() - k,
    {
        let file = &files[k];
        let ghost before = list;
        let vyper = path_has_extension(file.path.as_str(), "vy") || path_has_extension(file.path.as_str(), "vyi");
        if !vyper {
            let mut n: usize = 0;
            assert(list =~= before + ways_of(*file, 0));
            while n < file.sources.len()
                invariant
                    n <= file.sources@.len(),
                    list == before + ways_of(*file, n as int),
                    report.wf(),
                    analysed.wf(),
                    forall|b: Seq<char>, i: usize| #[trigger] report.path_of(b, i) == last_path(list, b, i),
                    forall|b: Seq<char>, p: Seq<char>| #[trigger] report.id_of(b, p) == last_id(list, b, p),
                    forall|b: Seq<char>| (#[trigger] report.items_of(b)) is None,
                    report.has_no_contracts(),
                    forall|b: Seq<char>, i: usize| #[trigger]
                        file_at(analysed@, b, i) == opt_joined(
                            root@,
                            last_analysed(list, with_libs, without_tests, b, i),
                        ),
                decreases file.sources@.len() - n,
            {
                let source = &file.sources[n];
                let listed = ListedSource {
                    path: file.path.clone(),
                    in_library: file.in_library,
                    is_test: file.is_test,
                    build_id: source.build_id.clone(),
                    version: source.version.clone(),
                    id: source.id,
                };
                register_source(&mut report, &mut analysed, &listed, with_libs, without_tests, root, Ghost(list));
                proof {
                    list = list.push(listed);
                    assert(list =~= before + ways_of(*file, n + 1));
                }
                n += 1;
            }
        }
        proof {
            assert(list =~= all_ways(files@, k + 1));
        }
        k += 1;
    }
    (report, analysed)
}

/// The positions of the contracts of a build among the first `n`.
pub open spec fn positions_in(artifacts: Seq<ArtifactData>, n: int, build: Seq<char>) -> Seq<usize>
    decreases n,
{
    if n <= 0 {
        Seq::empty()
    } else if artifacts[n - 1].contract_id.build_id@ == build {
        positions_in(artifacts, n - 1, build).push((n - 1) as usize)
    } else {
        positions_in(artifacts, n - 1, build)
    }
}

/// The positions of a build are those of all its contracts, in their order.
pub proof fn positions_are_those_of_the_build(artifacts: Seq<ArtifactData>, build: Seq<char>)
    requires
        artifacts.len() <= usize::MAX,
    ensures
        ({
            let positions = positions_in(artifacts, artifacts.len() as int, build);
            &&& forall|k: usize| #[trigger]
                positions.contains(k) <==> k < artifacts.len() && artifacts[k as int].contract_id.build_id@ == build
            &&& forall|i: int, j: int| 0 <= i < j < positions.len() ==> #[trigger] positions[i] < #[trigger] positions[j]
        }),
{
    positions_up_to(artifacts, artifacts.len() as int, build);
}

proof fn positions_up_to(artifacts: Seq<ArtifactData>, n: int, build: Seq<char>)
    requires
        0 <= n <= artifacts.len() <= usize::MAX,
    ensures
        ({
            let positions = positions_in(artifacts, n, build);
            &&& forall|k: usize| #[trigger]
                positions.contains(k) <==> k < n && artifacts[k as int].contract_id.build_id@ == build
            &&& forall|i: int, j: int| 0 <= i < j < positions.len() ==> #[trigger] positions[i] < #[trigger] positions[j]
        }),
    decreases n,
{
    if n > 0 {
        positions_up_to(artifacts, n - 1, build);
        let before = positions_in(artifacts, n - 1, build);
        let now = positions_in(artifacts, n, build);
        if artifacts[n - 1].contract_id.build_id@ == build {
            let last = (n - 1) as usize;
            assert(now[before.len() as int] == last);
            assert forall|k: usize| #[trigger] now.contains(k) <==> k < n && artifacts[k as int].contract_id.build_id@
                == build by {
                if before.contains(k) {
                    let i = choose|i: int| 0 <= i < before.len() && before[i] == k;
                    assert(now[i] == k);
                }
                if now.contains(k) && k != last {
                    let i = choose|i: int| 0 <= i < now.len() && now[i] == k;
                    assert(before[i] == k);
                }
            }
            assert forall|i: int, j: int| 0 <= i < j < now.len() implies #[trigger] now[i] < #[trigger] now[j] by {
                assert(before.contains(before[i]));
                assert(before[i] < n - 1);
                if j < before.len() {
                    assert(before[i] < before[j]);
                }
            }
        } else {
            assert forall|k: usize| #[trigger] now.contains(k) <==> k < n && artifacts[k as int].contract_id.build_id@
                == build by {
                assert(before.contains(k) <==> k < n - 1 && artifacts[k as int].contract_id.build_id@ == build);
            }
        }
    } else {
        assert(positions_in(artifacts, n, build) =~= Seq::empty());
    }
}

/// Finds the contracts of a build.
pub fn artifacts_of_build(artifacts: &Vec<ArtifactData>, build_id: &String) -> (positions: Vec<usize>)
    ensures
        positions@ == positions_in(artifacts@, artifacts@.len() as int, build_id@),
{
    let mut positions: Vec<usize> = Vec::new();
    let mut n: usize = 0;
    while n < artifacts.len()
        invariant
            n <= artifacts@.len(),
            positions@ == positions_in(artifacts@, n as int, build_id@),
        decreases artifacts@.len() - n,
    {
        if artifacts[n].contract_id.build_id == *build_id {
            positions.push(n);
        }
        n += 1;
    }
    positions
}

/// What was found out about a build: its items, the anchors of its contracts, and what is counted by what
/// happens to them.
pub struct BuildAnalysis {
    pub build_id: String,
    pub analysis: SourceAnalysis,
    pub anchors: Vec<AnchorEntry>,
    pub executions: Vec<ExecutionEntry>,
}

/// The anchors with the first `n` of a list put among them.
pub open spec fn with_anchors(
    anchors: Map<Seq<u64>, AnchorEntry>,
    list: Seq<AnchorEntry>,
    n: int,
) -> Map<Seq<u64>, AnchorEntry>
    decreases n,
{
    if n <= 0 {
        anchors
    } else {
        with_anchors(anchors, list, n - 1).insert(contract_key(list[n - 1].contract_id), list[n - 1])
    }
}

/// What is counted by what happens to contracts, with the first `n` of a list put among it.
pub open spec fn with_executions(
    executions: Map<Seq<u64>, ExecutionEntry>,
    list: Seq<ExecutionEntry>,
    n: int,
) -> Map<Seq<u64>, ExecutionEntry>
    decreases n,
{
    if n <= 0 {
        executions
    } else {
        with_executions(executions, list, n - 1).insert(contract_key(list[n - 1].contract_id), list[n - 1])
    }
}

/// The anchors of a contract are those that were put in last; those of contracts that are not in the list stay.
pub proof fn last_anchors_count(anchors: Map<Seq<u64>, AnchorEntry>, list: Seq<AnchorEntry>, k: int, key: Seq<u64>)
    requires
        0 <= k < list.len(),
        forall|j: int| k < j < list.len() ==> contract_key((#[trigger] list[j]).contract_id) != contract_key(
            list[k].contract_id,
        ),
    ensures
        with_anchors(anchors, list, list.len() as int).contains_key(contract_key(list[k].contract_id)),
        with_anchors(anchors, list, list.len() as int)[contract_key(list[k].contract_id)] == list[k],
        (forall|j: int| 0 <= j < list.len() ==> contract_key((#[trigger] list[j]).contract_id) != key) ==> (
        with_anchors(anchors, list, list.len() as int).contains_key(key) <==> anchors.contains_key(key)) && (
        anchors.contains_key(key) ==> with_anchors(anchors, list, list.len() as int)[key] == anchors[key]),
{
    last_anchors_up_to(anchors, list, list.len() as int, k);
    if forall|j: int| 0 <= j < list.len() ==> contract_key((#[trigger] list[j]).contract_id) != key {
        other_anchors_stay(anchors, list, list.len() as int, key);
    }
}

proof fn last_anchors_up_to(anchors: Map<Seq<u64>, AnchorEntry>, list: Seq<AnchorEntry>, n: int, k: int)
    requires
        0 <= k < n <= list.len(),
        forall|j: int| k < j < n ==> contract_key((#[trigger] list[j]).contract_id) != contract_key(
            list[k].contract_id,
        ),
    ensures
        with_anchors(anchors, list, n).contains_key(contract_key(list[k].contract_id)),
        with_anchors(anchors, list, n)[contract_key(list[k].contract_id)] == list[k],
    decreases n,
{
    if k < n - 1 {
        last_anchors_up_to(anchors, list, n - 1, k);
        assert(contract_key(list[n - 1].contract_id) != contract_key(list[k].contract_id));
    }
}

proof fn other_anchors_stay(anchors: Map<Seq<u64>, AnchorEntry>, list: Seq<AnchorEntry>, n: int, key: Seq<u64>)
    requires
        0 <= n <= list.len(),
        forall|j: int| 0 <= j < list.len() ==> contract_key((#[trigger] list[j]).contract_id) != key,
    ensures
        with_anchors(anchors, list, n).contains_key(key) <==> anchors.contains_key(key),
        anchors.contains_key(key) ==> with_anchors(anchors, list, n)[key] == anchors[key],
    decreases n,
{
    if n > 0 {
        other_anchors_stay(anchors, list, n - 1, key);
        assert(contract_key(list[n - 1].contract_id) != key);
    }
}

/// What is counted by what happens to a contract is what was put in last; that of contracts that are not in the list
/// stays.
pub proof fn last_executions_count(
    executions: Map<Seq<u64>, ExecutionEntry>,
    list: Seq<ExecutionEntry>,
    k: int,
    key: Seq<u64>,
)
    requires
        0 <= k < list.len(),
        forall|j: int| k < j < list.len() ==> contract_key((#[trigger] list[j]).contract_id) != contract_key(
            list[k].contract_id,
        ),
    ensures
        with_executions(executions, list, list.len() as int).contains_key(contract_key(list[k].contract_id)),
        with_executions(executions, list, list.len() as int)[contract_key(list[k].contract_id)] == list[k],
        (forall|j: int| 0 <= j < list.len() ==> contract_key((#[trigger] list[j]).contract_id) != key) ==> (
        with_executions(executions, list, list.len() as int).contains_key(key) <==> executions.contains_key(key)) && (
        executions.contains_key(key) ==> with_executions(executions, list, list.len() as int)[key]
            == executions[key]),
{
    last_executions_up_to(executions, list, list.len() as int, k);
    if forall|j: int| 0 <= j < list.len() ==> contract_key((#[trigger] list[j]).contract_id) != key {
        other_executions_stay(executions, list, list.len() as int, key);
    }
}

proof fn last_executions_up_to(executions: Map<Seq<u64>, ExecutionEntry>, list: Seq<ExecutionEntry>, n: int, k: int)
    requires
        0 <= k < n <= list.len(),
        forall|j: int| k < j < n ==> contract_key((#[trigger] list[j]).contract_id) != contract_key(
            list[k].contract_id,
        ),
    ensures
        with_executions(executions, list, n).contains_key(contract_key(list[k].contract_id)),
        with_executions(executions, list, n)[contract_key(list[k].contract_id)] == list[k],
    decreases n,
{
    if k < n - 1 {
        last_executions_up_to(executions, list, n - 1, k);
        assert(contract_key(list[n - 1].contract_id) != contract_key(list[k].contract_id));
    }
}

proof fn other_executions_stay(
    executions: Map<Seq<u64>, ExecutionEntry>,
    list: Seq<ExecutionEntry>,
    n: int,
    key: Seq<u64>,
)
    requires
        0 <= n <= list.len(),
        forall|j: int| 0 <= j < list.len() ==> contract_key((#[trigger] list[j]).contract_id) != key,
    ensures
        with_executions(executions, list, n).contains_key(key) <==> executions.contains_key(key),
        executions.contains_key(key) ==> with_executions(executions, list, n)[key] == executions[key],
    decreases n,
{
    if n > 0 {
        other_executions_stay(executions, list, n - 1, key);
        assert(contract_key(list[n - 1].contract_id) != key);
    }
}

fn add_executions(report: &mut CoverageReport, list: Vec<ExecutionEntry>)
    requires
        old(report).wf(),
    ensures
        final(report).wf(),
        final(report).same_sources(old(report)),
        final(report).analyses == old(report).analyses,
        final(report).anchors == old(report).anchors,
        final(report).source_maps == old(report).source_maps,
        final(report).bytecode_hits == old(report).bytecode_hits,
        final(report).executions@ == with_executions(old(report).executions@, list@, list@.len() as int),
{
    let ghost all = list@;
    let mut pending = reversed(list);
    let ghost mut n: int = 0;
    while pending.len() > 0
        invariant
            0 <= n <= all.len(),
            n + pending@.len() == all.len(),
            forall|i: int| 0 <= i < pending@.len() ==> #[trigger] pending@[i] == all[all.len() - 1 - i],
            report.wf(),
            report.same_sources(old(report)),
            report.analyses == old(report).analyses,
            report.anchors == old(report).anchors,
            report.source_maps == old(report).source_maps,
            report.bytecode_hits == old(report).bytecode_hits,
            report.executions@ == with_executions(old(report).executions@, all, n),
        decreases pending@.len(),
    {
        let entry = pending.pop().unwrap();
        assert(entry == all[n]);
        report.add_execution_anchors(entry);
        proof {
            n = n + 1;
        }
    }
}

/// Adds what was found out about a build.
pub fn add_build(report: &mut CoverageReport, build: BuildAnalysis)
    requires
        old(report).wf(),
    ensures
        final(report).wf(),
        final(report).same_sources(old(report)),
        final(report).source_maps == old(report).source_maps,
        final(report).bytecode_hits == old(report).bytecode_hits,
        final(report).anchors@ == with_anchors(old(report).anchors@, build.anchors@, build.anchors@.len() as int),
        final(report).executions@ == with_executions(
            old(report).executions@,
            build.executions@,
            build.executions@.len() as int,
        ),
        forall|b: Seq<char>| #[trigger]
            final(report).items_of(b) == (if b == build.build_id@ {
                Some(build.analysis.items@)
            } else {
                old(report).items_of(b)
            }),
{
    let ghost all = build.anchors@;
    let mut list = reversed(build.anchors);
    let ghost mut n: int = 0;
    while list.len() > 0
        invariant
            0 <= n <= all.len(),
            n + list@.len() == all.len(),
            forall|i: int| 0 <= i < list@.len() ==> #[trigger] list@[i] == all[all.len() - 1 - i],
            report.wf(),
            report.same_sources(old(report)),
            report.analyses == old(report).analyses,
            report.source_maps == old(report).source_maps,
            report.bytecode_hits == old(report).bytecode_hits,
            report.executions == old(report).executions,
            report.anchors@ == with_anchors(old(report).anchors@, all, n),
        decreases list@.len(),
    {
        let entry = list.pop().unwrap();
        assert(entry == all[n]);
        report.add_anchors(entry.contract_id, entry.creation, entry.runtime);
        proof {
            n = n + 1;
        }
    }
    add_executions(report, build.executions);
    let ghost mid = *report;
    report.add_analysis(build.build_id, build.analysis);
    proof {
        assert forall|b: Seq<char>| #[trigger] report.items_of(b) == (if b == build.build_id@ {
            Some(build.analysis.items@)
        } else {
            old(report).items_of(b)
        }) by {
            assert(mid.items_of(b) == old(report).items_of(b));
        }
    }
}

/// Where the instructions of a contract come from.
pub open spec fn source_map_of(artifact: ArtifactData) -> SourceMapEntry {
    SourceMapEntry {
        contract_id: artifact.contract_id,
        creation: artifact.creation.source_map,
        runtime: artifact.deployed.source_map,
    }
}

/// The entries with those of the first `n` contracts put among them.
pub open spec fn with_source_maps(
    maps: Map<Seq<u64>, SourceMapEntry>,
    artifacts: Seq<ArtifactData>,
    n: int,
) -> Map<Seq<u64>, SourceMapEntry>
    decreases n,
{
    if n <= 0 {
        maps
    } else {
        with_source_maps(maps, artifacts, n - 1).insert(
            contract_key(artifacts[n - 1].contract_id),
            source_map_of(artifacts[n - 1]),
        )
    }
}

/// The instructions of a contract come from where it says: those of the creation code from the places for the
/// creation code, those of the deployed code from the places for that.
pub proof fn source_maps_are_those_of_contracts(
    maps: Map<Seq<u64>, SourceMapEntry>,
    artifacts: Seq<ArtifactData>,
    k: int,
)
    requires
        0 <= k < artifacts.len(),
        forall|j: int| k < j < artifacts.len() ==> contract_key((#[trigger] artifacts[j]).contract_id) != contract_key(
            artifacts[k].contract_id,
        ),
    ensures
        ({
            let all = with_source_maps(maps, artifacts, artifacts.len() as int);
            let key = contract_key(artifacts[k].contract_id);
            &&& all.contains_key(key)
            &&& all[key].contract_id == artifacts[k].contract_id
            &&& all[key].creation == artifacts[k].creation.source_map
            &&& all[key].runtime == artifacts[k].deployed.source_map
        }),
{
    source_maps_up_to(maps, artifacts, artifacts.len() as int, k);
}

proof fn source_maps_up_to(maps: Map<Seq<u64>, SourceMapEntry>, artifacts: Seq<ArtifactData>, n: int, k: int)
    requires
        0 <= k < n <= artifacts.len(),
        forall|j: int| k < j < n ==> contract_key((#[trigger] artifacts[j]).contract_id) != contract_key(
            artifacts[k].contract_id,
        ),
    ensures
        ({
            let all = with_source_maps(maps, artifacts, n);
            let key = contract_key(artifacts[k].contract_id);
            &&& all.contains_key(key)
            &&& all[key].contract_id == artifacts[k].contract_id
            &&& all[key].creation == artifacts[k].creation.source_map
            &&& all[key].runtime == artifacts[k].deployed.source_map
        }),
    decreases n,
{
    if k < n - 1 {
        source_maps_up_to(maps, artifacts, n - 1, k);
        assert(contract_key(artifacts[n - 1].contract_id) != contract_key(artifacts[k].contract_id));
    }
}

/// The elements from the last to the first.
fn reversed<T>(list: Vec<T>) -> (reversed: Vec<T>)
    ensures
        reversed@ == list@.reverse(),
{
    let ghost all = list@;
    let mut pending = list;
    let mut reversed: Vec<T> = Vec::new();
    while pending.len() > 0
        invariant
            pending@.len() + reversed@.len() == all.len(),
            forall|i: int| 0 <= i < pending@.len() ==> pending@[i] == #[trigger] all[i],
            forall|i: int| 0 <= i < reversed@.len() ==> #[trigger] reversed@[i] == all[all.len() - 1 - i],
        decreases pending@.len(),
    {
        let entry = pending.pop().unwrap();
        reversed.push(entry);
    }
    assert(reversed@ =~= all.reverse());
    reversed
}

/// Adds where the instructions of contracts come from.
pub fn add_source_maps(report: &mut CoverageReport, artifacts: Vec<ArtifactData>)
    requires
        old(report).wf(),
    ensures
        final(report).wf(),
        final(report).same_sources(old(report)),
        final(report).analyses == old(report).analyses,
        final(report).anchors == old(report).anchors,
        final(report).executions == old(report).executions,
        final(report).bytecode_hits == old(report).bytecode_hits,
        final(report).source_maps@ == with_source_maps(
            old(report).source_maps@,
            artifacts@,
            artifacts@.len() as int,
        ),
{
    let ghost all = artifacts@;
    let mut list = reversed(artifacts);
    let ghost mut n: int = 0;
    while list.len() > 0
        invariant
            0 <= n <= all.len(),
            n + list@.len() == all.len(),
            forall|i: int| 0 <= i < list@.len() ==> #[trigger] list@[i] == all[all.len() - 1 - i],
            report.wf(),
            report.same_sources(old(report)),
            report.analyses == old(report).analyses,
            report.anchors == old(report).anchors,
            report.executions == old(report).executions,
            report.bytecode_hits == old(report).bytecode_hits,
            report.source_maps@ == with_source_maps(old(report).source_maps@, all, n),
        decreases list@.len(),
    {
        let artifact = list.pop().unwrap();
        assert(artifact == all[n]);
        let entry = SourceMapEntry {
            contract_id: artifact.contract_id,
            creation: artifact.creation.source_map,
            runtime: artifact.deployed.source_map,
        };
        report.add_source_map(entry);
        proof {
            n = n + 1;
        }
    }
}

/// The items of a build after the first `n` analyses: those of the last analysis of it, if there is one.
pub open spec fn last_analysis(
    builds: Seq<BuildAnalysis>,
    n: int,
    build: Seq<char>,
    before: Option<Seq<CoverageItem>>,
) -> Option<Seq<CoverageItem>>
    decreases n,
{
    if n <= 0 {
        before
    } else if builds[n - 1].build_id@ == build {
        Some(builds[n - 1].analysis.items@)
    } else {
        last_analysis(builds, n - 1, build, before)
    }
}

/// The anchors with those of the first `n` builds put among them.
pub open spec fn with_all_anchors(
    anchors: Map<Seq<u64>, AnchorEntry>,
    builds: Seq<BuildAnalysis>,
    n: int,
) -> Map<Seq<u64>, AnchorEntry>
    decreases n,
{
    if n <= 0 {
        anchors
    } else {
        with_anchors(
            with_all_anchors(anchors, builds, n - 1),
            builds[n - 1].anchors@,
            builds[n - 1].anchors@.len() as int,
        )
    }
}

/// What is counted by what happens to contracts, with that of the first `n` builds put among it.
pub open spec fn with_all_executions(
    executions: Map<Seq<u64>, ExecutionEntry>,
    builds: Seq<BuildAnalysis>,
    n: int,
) -> Map<Seq<u64>, ExecutionEntry>
    decreases n,
{
    if n <= 0 {
        executions
    } else {
        with_executions(
            with_all_executions(executions, builds, n - 1),
            builds[n - 1].executions@,
            builds[n - 1].executions@.len() as int,
        )
    }
}

/// Of all builds with an id the last one counts, and the items of other builds stay.
pub proof fn last_build_counts(builds: Seq<BuildAnalysis>, k: int, build: Seq<char>, before: Option<Seq<CoverageItem>>)
    requires
        0 <= k < builds.len(),
        forall|j: int| k < j < builds.len() ==> (#[trigger] builds[j]).build_id@ != builds[k].build_id@,
    ensures
        last_analysis(builds, builds.len() as int, builds[k].build_id@, before) == Some(builds[k].analysis.items@),
        (forall|j: int| 0 <= j < builds.len() ==> (#[trigger] builds[j]).build_id@ != build) ==> last_analysis(
            builds,
            builds.len() as int,
            build,
            before,
        ) == before,
{
    last_build_up_to(builds, builds.len() as int, k, before);
    if forall|j: int| 0 <= j < builds.len() ==> (#[trigger] builds[j]).build_id@ != build {
        other_builds_stay(builds, builds.len() as int, build, before);
    }
}

proof fn last_build_up_to(builds: Seq<BuildAnalysis>, n: int, k: int, before: Option<Seq<CoverageItem>>)
    requires
        0 <= k < n <= builds.len(),
        forall|j: int| k < j < n ==> (#[trigger] builds[j]).build_id@ != builds[k].build_id@,
    ensures
        last_analysis(builds, n, builds[k].build_id@, before) == Some(builds[k].analysis.items@),
    decreases n,
{
    if k < n - 1 {
        last_build_up_to(builds, n - 1, k, before);
        assert(builds[n - 1].build_id@ != builds[k].build_id@);
    }
}

proof fn other_builds_stay(builds: Seq<BuildAnalysis>, n: int, build: Seq<char>, before: Option<Seq<CoverageItem>>)
    requires
        0 <= n <= builds.len(),
        forall|j: int| 0 <= j < builds.len() ==> (#[trigger] builds[j]).build_id@ != build,
    ensures
        last_analysis(builds, n, build, before) == before,
    decreases n,
{
    if n > 0 {
        other_builds_stay(builds, n - 1, build, before);
        assert(builds[n - 1].build_id@ != build);
    }
}

/// The anchors of all builds are put in, build by build and in their order, and so is what is counted by what happens
/// to contracts.
pub proof fn all_builds_are_put_in(
    anchors: Map<Seq<u64>, AnchorEntry>,
    executions: Map<Seq<u64>, ExecutionEntry>,
    builds: Seq<BuildAnalysis>,
)
    ensures
        ({
            let all = builds.map_values(|build: BuildAnalysis| build.anchors@).flatten();
            with_all_anchors(anchors, builds, builds.len() as int) == with_anchors(anchors, all, all.len() as int)
        }),
        ({
            let all = builds.map_values(|build: BuildAnalysis| build.executions@).flatten();
            with_all_executions(executions, builds, builds.len() as int) == with_executions(
                executions,
                all,
                all.len() as int,
            )
        }),
{
    anchors_are_put_in(anchors, builds, builds.len() as int);
    executions_are_put_in(executions, builds, builds.len() as int);
    assert(builds.take(builds.len() as int) =~= builds);
}

proof fn anchors_are_put_in(anchors: Map<Seq<u64>, AnchorEntry>, builds: Seq<BuildAnalysis>, n: int)
    requires
        0 <= n <= builds.len(),
    ensures
        ({
            let all = builds.take(n).map_values(|build: BuildAnalysis| build.anchors@).flatten();
            with_all_anchors(anchors, builds, n) == with_anchors(anchors, all, all.len() as int)
        }),
    decreases n,
{
    let f = |build: BuildAnalysis| build.anchors@;
    if n == 0 {
        assert(builds.take(0).map_values(f) =~= Seq::empty());
        joined_empty::<AnchorEntry>();
    } else {
        anchors_are_put_in(anchors, builds, n - 1);
        let own = builds[n - 1].anchors@;
        let before = builds.take(n - 1).map_values(f);
        assert(builds.take(n).map_values(f) =~= before.push(own));
        joined_push(before, own);
        anchors_in_turn(anchors, before.flatten(), own, own.len() as int);
    }
}

proof fn anchors_in_turn(anchors: Map<Seq<u64>, AnchorEntry>, a: Seq<AnchorEntry>, b: Seq<AnchorEntry>, n: int)
    requires
        0 <= n <= b.len(),
    ensures
        with_anchors(anchors, a + b, a.len() + n) == with_anchors(with_anchors(anchors, a, a.len() as int), b, n),
    decreases n,
{
    if n == 0 {
        anchors_of_prefix(anchors, a, b, a.len() as int);
    } else {
        anchors_in_turn(anchors, a, b, n - 1);
        assert((a + b)[a.len() + n - 1] == b[n - 1]);
    }
}

proof fn anchors_of_prefix(anchors: Map<Seq<u64>, AnchorEntry>, a: Seq<AnchorEntry>, b: Seq<AnchorEntry>, n: int)
    requires
        0 <= n <= a.len(),
    ensures
        with_anchors(anchors, a + b, n) == with_anchors(anchors, a, n),
    decreases n,
{
    if n > 0 {
        anchors_of_prefix(anchors, a, b, n - 1);
        assert((a + b)[n - 1] == a[n - 1]);
    }
}

proof fn executions_are_put_in(executions: Map<Seq<u64>, ExecutionEntry>, builds: Seq<BuildAnalysis>, n: int)
    requires
        0 <= n <= builds.len(),
    ensures
        ({
            let all = builds.take(n).map_values(|build: BuildAnalysis| build.executions@).flatten();
            with_all_executions(executions, builds, n) == with_executions(executions, all, all.len() as int)
        }),
    decreases n,
{
    let f = |build: BuildAnalysis| build.executions@;
    if n == 0 {
        assert(builds.take(0).map_values(f) =~= Seq::empty());
        joined_empty::<ExecutionEntry>();
    } else {
        executions_are_put_in(executions, builds, n - 1);
        let own = builds[n - 1].executions@;
        let before = builds.take(n - 1).map_values(f);
        assert(builds.take(n).map_values(f) =~= before.push(own));
        joined_push(before, own);
        executions_in_turn(executions, before.flatten(), own, own.len() as int);
    }
}

proof fn executions_in_turn(
    executions: Map<Seq<u64>, ExecutionEntry>,
    a: Seq<ExecutionEntry>,
    b: Seq<ExecutionEntry>,
    n: int,
)
    requires
        0 <= n <= b.len(),
    ensures
        with_executions(executions, a + b, a.len() + n) == with_executions(
            with_executions(executions, a, a.len() as int),
            b,
            n,
        ),
    decreases n,
{
    if n == 0 {
        executions_of_prefix(executions, a, b, a.len() as int);
    } else {
        executions_in_turn(executions, a, b, n - 1);
        assert((a + b)[a.len() + n - 1] == b[n - 1]);
    }
}

proof fn executions_of_prefix(
    executions: Map<Seq<u64>, ExecutionEntry>,
    a: Seq<ExecutionEntry>,
    b: Seq<ExecutionEntry>,
    n: int,
)
    requires
        0 <= n <= a.len(),
    ensures
        with_executions(executions, a + b, n) == with_executions(executions, a, n),
    decreases n,
{
    if n > 0 {
        executions_of_prefix(executions, a, b, n - 1);
        assert((a + b)[n - 1] == a[n - 1]);
    }
}

/// Adds what was found out about all builds, and where the instructions of the contracts come from, if
/// that is needed.
pub fn add_builds(
    report: &mut CoverageReport,
    builds: Vec<BuildAnalysis>,
    artifacts: Vec<ArtifactData>,
    needs_source_maps: bool,
)
    requires
        old(report).wf(),
    ensures
        final(report).wf(),
        final(report).same_sources(old(report)),
        final(report).bytecode_hits == old(report).bytecode_hits,
        final(report).anchors@ == with_all_anchors(old(report).anchors@, builds@, builds@.len() as int),
        final(report).executions@ == with_all_executions(old(report).executions@, builds@, builds@.len() as int),
        final(report).source_maps@ == (if needs_source_maps {
            with_source_maps(old(report).source_maps@, artifacts@, artifacts@.len() as int)
        } else {
            old(report).source_maps@
        }),
        forall|b: Seq<char>| #[trigger]
            final(report).items_of(b) == last_analysis(builds@, builds@.len() as int, b, old(report).items_of(b)),
{
    let ghost all = builds@;
    let mut list = reversed(builds);
    let ghost mut n: int = 0;
    while list.len() > 0
        invariant
            0 <= n <= all.len(),
            n + list@.len() == all.len(),
            forall|i: int| 0 <= i < list@.len() ==> #[trigger] list@[i] == all[all.len() - 1 - i],
            report.wf(),
            report.same_sources(old(report)),
            report.source_maps == old(report).source_maps,
            report.bytecode_hits == old(report).bytecode_hits,
            report.anchors@ == with_all_anchors(old(report).anchors@, all, n),
            report.executions@ == with_all_executions(old(report).executions@, all, n),
            forall|b: Seq<char>| #[trigger]
                report.items_of(b) == last_analysis(all, n, b, old(report).items_of(b)),
        decreases list@.len(),
    {
        let build = list.pop().unwrap();
        assert(build == all[n]);
        let ghost before = *report;
        add_build(report, build);
        proof {
            assert forall|b: Seq<char>| #[trigger] report.items_of(b) == last_analysis(
                all,
                n + 1,
                b,
                old(report).items_of(b),
            ) by {
                assert(before.items_of(b) == last_analysis(all, n, b, old(report).items_of(b)));
            }
            n = n + 1;
        }
    }
    if needs_source_maps {
        let ghost before = *report;
        add_source_maps(report, artifacts);
        assert forall|b: Seq<char>| #[trigger] report.items_of(b) == last_analysis(
            all,
            all.len() as int,
            b,
            old(report).items_of(b),
        ) by {
            assert(before.items_of(b) == report.items_of(b));
        }
    }
}

}
