//! Collects hits while contracts run.
use crate::hit_maps::{capped_sum, call_data, is_fresh, CallData, HitMap, HitMaps};
use crate::tags::{count_of, InstrumentedHitMaps};
use core::ops::Range;
use vstd::prelude::*;

verus! {

/// The address that probes call.
pub const FOUNDRY_COVERAGE_ADDRESS: [u8; 20] = [
    0xc0, 0xbe, 0xc0, 0xbe, 0xc0, 0xbe, 0xc0, 0xbe, 0xc0, 0xbe, 0xc0, 0xbe, 0xc0, 0xbe, 0xc0, 0xbe, 0xc0, 0xbe, 0xc0, 0xbe,
];

/// Whether two byte strings are the same.
fn same_bytes(a: &[u8], b: &[u8]) -> (same: bool)
    ensures
        same == (a@ == b@),
{
    if a.len() != b.len() {
        return false;
    }
    let mut i: usize = 0;
    while i < a.len()
        invariant
            a@.len() == b@.len(),
            i <= a@.len(),
            forall|j: int| 0 <= j < i ==> #[trigger] a@[j] == b@[j],
        decreases a@.len() - i,
    {
        if a[i] != b[i] {
            assert(a@[i as int] != b@[i as int]);
            return false;
        }
        i += 1;
    }
    assert(a@ =~= b@);
    true
}

/// A copy of some bytes.
fn copy_bytes(bytes: &[u8]) -> (copy: Vec<u8>)
    ensures
        copy@ == bytes@,
{
    let mut copy: Vec<u8> = Vec::new();
    let mut i: usize = 0;
    while i < bytes.len()
        invariant
            i <= bytes@.len(),
            copy@ == bytes@.take(i as int),
        decreases bytes@.len() - i,
    {
        copy.push(bytes[i]);
        assert(copy@ =~= bytes@.take(i + 1));
        i += 1;
    }
    assert(copy@ =~= bytes@);
    copy
}

/// The tag that a probe sends.
fn tag_of_input(input: &Vec<u8>) -> (tag: [u8; 32])
    requires
        input@.len() == 32,
    ensures
        tag@ == input@,
{
    let mut tag = [0u8; 32];
    let mut i: usize = 0;
    while i < 32
        invariant
            i <= 32,
            input@.len() == 32,
            forall|j: int| 0 <= j < i ==> #[trigger] tag@[j] == input@[j],
        decreases 32 - i,
    {
        tag[i] = input[i];
        i += 1;
    }
    assert(tag@ =~= input@);
    tag
}

/// Collects the hits of instructions.
#[derive(Debug)]
pub struct LineCoverageCollector {
    /// The hash of the code that ran last, and the position of its map.
    current: Option<([u8; 32], usize)>,
    maps: HitMaps,
}

impl LineCoverageCollector {
    /// The remembered position is that of the remembered hash.
    pub closed spec fn wf(&self) -> bool {
        &&& self.maps.wf()
        &&& match self.current {
            Some((hash, slot)) => slot < self.maps.count() && self.maps.hash_at(slot as int) == hash@,
            None => true,
        }
    }

    /// The maps so far.
    pub closed spec fn maps(&self) -> HitMaps {
        self.maps
    }

    /// The map of a hash, or one without hits where there is none yet.
    pub open spec fn starts_from(&self, map: &HitMap, hash: Seq<u8>, bytecode: Seq<u8>) -> bool {
        if self.maps().has(hash) { *map == self.maps().map_of(hash) } else { is_fresh(map, bytecode) }
    }

    /// All maps but that of `hash` are as in `before`, and there is one for `hash`.
    pub open spec fn keeps_others(&self, before: &LineCoverageCollector, hash: Seq<u8>) -> bool {
        &&& forall|h: Seq<u8>| #[trigger] self.maps().has(h) <==> before.maps().has(h) || h == hash
        &&& forall|h: Seq<u8>| before.maps().has(h) && h != hash ==> #[trigger] self.maps().map_of(h)
            == before.maps().map_of(h)
    }

    /// An instruction of some code was run, and nothing else.
    pub open spec fn has_stepped(
        &self,
        before: &LineCoverageCollector,
        hash: Seq<u8>,
        bytecode: Seq<u8>,
        pc: u32,
    ) -> bool {
        &&& self.keeps_others(before, hash)
        &&& exists|was: HitMap| #[trigger]
            before.starts_from(&was, hash, bytecode) && is_hit(&self.maps().map_of(hash), &was, pc)
    }

    /// A collector without hits.
    pub fn new() -> (collector: Self)
        ensures
            collector.wf(),
            collector.maps().count() == 0,
            forall|h: Seq<u8>| !(#[trigger] collector.maps().has(h)),
    {
        LineCoverageCollector { current: None, maps: HitMaps::new() }
    }

    /// Ends the collection.
    pub fn finish(self) -> (maps: HitMaps)
        requires
            self.wf(),
        ensures
            maps == self.maps(),
            maps.wf(),
    {
        self.maps
    }

    /// The position of the map for the code that runs; a map is added where there is none.
    fn get_or_insert_map(&mut self, hash: &[u8; 32], bytecode: &[u8]) -> (slot: usize)
        requires
            old(self).wf(),
        ensures
            final(self).wf(),
            slot < final(self).maps().count(),
            final(self).maps().hash_at(slot as int) == hash@,
            final(self).keeps_others(old(self), hash@),
            old(self).starts_from(&final(self).maps().map_of(hash@), hash@, bytecode@),
    {
        if let Some((current, slot)) = self.current {
            if same_bytes(current.as_slice(), hash.as_slice()) {
                proof {
                    self.maps.slots_match();
                    assert(self.maps.has(self.maps.hash_at(slot as int)));
                }
                return slot;
            }
        }
        let slot: usize = self.maps.find_or_insert(hash, bytecode);
        self.current = Some((*hash, slot));
        slot
    }

    /// Code begins to run: the call is recorded, unless it is a creation. A call has its data and
    /// whether it sends value.
    pub fn initialize_interp(&mut self, hash: &[u8; 32], bytecode: &[u8], call: Option<(&[u8], bool)>)
        requires
            old(self).wf(),
        ensures
            final(self).wf(),
            final(self).keeps_others(old(self), hash@),
            exists|was: HitMap| #[trigger]
                old(self).starts_from(&was, hash@, bytecode@) && is_called(
                    &final(self).maps().map_of(hash@),
                    &was,
                    match call {
                        Some((input, with_value)) => Some((call_data(input@), with_value)),
                        None => None,
                    },
                ),
    {
        let slot: usize = self.get_or_insert_map(hash, bytecode);
        let ghost was = self.maps.map_of(hash@);
        let ghost mid = *self;
        assert(old(self).starts_from(&was, hash@, bytecode@));
        if let Some((input, with_value)) = call {
            let data = CallData::new(input);
            self.maps.call(slot, data, with_value);
            assert(self.keeps_others(&mid, hash@));
        }
        assert(is_called(
            &self.maps().map_of(hash@),
            &was,
            match call {
                Some((input, with_value)) => Some((call_data(input@), with_value)),
                None => None,
            },
        ));
    }

    /// The instruction at `pc` is run.
    pub fn step(&mut self, hash: &[u8; 32], bytecode: &[u8], pc: usize)
        requires
            old(self).wf(),
        ensures
            final(self).wf(),
            final(self).has_stepped(old(self), hash@, bytecode@, pc as u32),
    {
        let slot: usize = self.get_or_insert_map(hash, bytecode);
        let ghost was = self.maps.map_of(hash@);
        let ghost mid = *self;
        assert(old(self).starts_from(&was, hash@, bytecode@));
        self.maps.hit(slot, pc as u32);
        assert(self.keeps_others(&mid, hash@));
        assert(is_hit(&self.maps().map_of(hash@), &was, pc as u32));
    }

    /// A creation ended: if it succeeded, it is recorded in the map of its code, where there is one.
    pub fn create_end(&mut self, init_code_hash: &[u8; 32], succeeded: bool)
        requires
            old(self).wf(),
        ensures
            final(self).wf(),
            forall|h: Seq<u8>| #[trigger] final(self).maps().has(h) == old(self).maps().has(h),
            forall|h: Seq<u8>| old(self).maps().has(h) && !(succeeded && h == init_code_hash@) ==> #[trigger]
                final(self).maps().map_of(h) == old(self).maps().map_of(h),
            succeeded && old(self).maps().has(init_code_hash@) ==> is_created(
                &final(self).maps().map_of(init_code_hash@),
                &old(self).maps().map_of(init_code_hash@),
            ),
    {
        if succeeded {
            if let Some(slot) = self.maps.find(init_code_hash) {
                self.maps.creation(slot);
            }
        }
    }
}

/// A copy has maps of its own, with the same hits.
impl Clone for LineCoverageCollector {
    fn clone(&self) -> (copy: Self)
        ensures
            self.wf() ==> copy.wf(),
            copy.maps().is_same(&self.maps()),
    {
        LineCoverageCollector { current: self.current, maps: self.maps.clone() }
    }
}

/// A copy of a collector counts on its own: where it runs an instruction of code that was run before, its map
/// has one hit more than that of the collector it was copied from, and its other maps hold the same.
pub proof fn copy_counts_on_its_own(
    collector: LineCoverageCollector,
    copy: LineCoverageCollector,
    stepped: LineCoverageCollector,
    hash: Seq<u8>,
    bytecode: Seq<u8>,
    pc: u32,
)
    requires
        collector.wf(),
        collector.maps().has(hash),
        copy.maps().is_same(&collector.maps()),
        stepped.has_stepped(&copy, hash, bytecode, pc),
    ensures
        is_hit(&stepped.maps().map_of(hash), &collector.maps().map_of(hash), pc),
        forall|h: Seq<u8>| #[trigger] stepped.maps().has(h) == collector.maps().has(h),
        forall|h: Seq<u8>| collector.maps().has(h) && h != hash ==> (#[trigger] stepped.maps().map_of(h)).is_same(
            &collector.maps().map_of(h),
        ),
{
    let was = choose|was: HitMap| #[trigger]
        copy.starts_from(&was, hash, bytecode) && is_hit(&stepped.maps().map_of(hash), &was, pc);
    assert(collector.maps().wf());
    assert(copy.maps().has(hash) == collector.maps().has(hash));
    assert(was == copy.maps().map_of(hash));
    assert(copy.maps().map_of(hash).is_same(&collector.maps().map_of(hash)));
    assert forall|h: Seq<u8>| #[trigger] stepped.maps().has(h) == collector.maps().has(h) by {
        assert(copy.maps().has(h) == collector.maps().has(h));
    }
    assert forall|h: Seq<u8>| collector.maps().has(h) && h != hash implies (#[trigger] stepped.maps().map_of(
        h,
    )).is_same(&collector.maps().map_of(h)) by {
        assert(copy.maps().has(h) == collector.maps().has(h));
        assert(copy.maps().map_of(h).is_same(&collector.maps().map_of(h)));
    }
}

/// One more hit of an instruction.
pub open spec fn is_hit(new: &HitMap, was: &HitMap, pc: u32) -> bool {
    &&& new.code() == was.code()
    &&& new.same_calls(was)
    &&& new.creation_count() == was.creation_count()
    &&& forall|p: u32| #[trigger]
        new.hits_at(p) == (if p == pc { capped_sum(was.hits_at(p), 1) } else { was.hits_at(p) })
}

/// One more call with the data, if there is a call.
pub open spec fn is_called(new: &HitMap, was: &HitMap, call: Option<(CallData, bool)>) -> bool {
    &&& new.code() == was.code()
    &&& new.same_hits(was)
    &&& new.creation_count() == was.creation_count()
    &&& forall|d: CallData, v: bool| #[trigger]
        new.calls_with(d, v) == (if call == Some((d, v)) {
            capped_sum(was.calls_with(d, v), 1)
        } else {
            was.calls_with(d, v)
        })
}

/// One more creation.
pub open spec fn is_created(new: &HitMap, was: &HitMap) -> bool {
    &&& new.code() == was.code()
    &&& new.same_hits(was)
    &&& new.same_calls(was)
    &&& new.creation_count() == capped_sum(was.creation_count(), 1)
}

/// Running an instruction once counts one hit of it and nothing else, as long as it can be counted; so do a call and
/// a creation.
pub proof fn one_more_is_counted(new: HitMap, was: HitMap, pc: u32, data: CallData, with_value: bool)
    ensures
        is_hit(&new, &was, pc) ==> {
            &&& was.hits_at(pc) < u32::MAX ==> new.hits_at(pc) == was.hits_at(pc) + 1
            &&& was.hits_at(pc) == u32::MAX ==> new.hits_at(pc) == u32::MAX
            &&& forall|p: u32| p != pc ==> #[trigger] new.hits_at(p) == was.hits_at(p)
            &&& forall|d: CallData, v: bool| #[trigger] new.calls_with(d, v) == was.calls_with(d, v)
            &&& new.creation_count() == was.creation_count()
        },
        is_called(&new, &was, Some((data, with_value))) ==> {
            &&& was.calls_with(data, with_value) < u32::MAX ==> new.calls_with(data, with_value) == was.calls_with(
                data,
                with_value,
            ) + 1
            &&& forall|d: CallData, v: bool|
                d != data || v != with_value ==> #[trigger] new.calls_with(d, v) == was.calls_with(d, v)
            &&& forall|p: u32| #[trigger] new.hits_at(p) == was.hits_at(p)
            &&& new.creation_count() == was.creation_count()
        },
        is_created(&new, &was) ==> {
            &&& was.creation_count() < u32::MAX ==> new.creation_count() == was.creation_count() + 1
            &&& forall|p: u32| #[trigger] new.hits_at(p) == was.hits_at(p)
            &&& forall|d: CallData, v: bool| #[trigger] new.calls_with(d, v) == was.calls_with(d, v)
        },
{
}

/// How a contract is called.
#[derive(Clone, Copy, Debug, PartialEq, Eq, Structural)]
pub enum CallScheme {
    Call,
    CallCode,
    DelegateCall,
    StaticCall,
}

/// A call as the collector sees it.
pub struct CallInputs {
    /// Where the code that is called comes from.
    pub bytecode_address: [u8; 20],
    pub scheme: CallScheme,
    pub input: Vec<u8>,
    pub gas_limit: u64,
    /// Where the caller wants what is returned.
    pub return_memory_offset: Range<usize>,
}

/// The answer to a probe. It succeeds, and gives back all of its gas.
pub struct ProbeOutcome {
    pub output: Vec<u8>,
    pub gas_limit: u64,
    pub memory_offset: Range<usize>,
}

/// A call is a probe: it is static and goes to the coverage address. Any other call to that address
/// could send value or run with another contract's storage.
pub open spec fn is_probe(inputs: CallInputs) -> bool {
    inputs.bytecode_address@ == FOUNDRY_COVERAGE_ADDRESS@ && inputs.scheme == CallScheme::StaticCall
}

/// Probes are the static calls to one address, whose bytes are 0xc0 and 0xbe in turn, and no others.
pub proof fn probes_are_static_calls_to_the_address(inputs: CallInputs)
    ensures
        is_probe(inputs) <==> inputs.scheme is StaticCall && forall|i: int|
            0 <= i < 20 ==> #[trigger] inputs.bytecode_address@[i] == (if i % 2 == 0 { 0xc0u8 } else { 0xbeu8 }),
{
    let own = inputs.bytecode_address@;
    let address = FOUNDRY_COVERAGE_ADDRESS@;
    assert(own.len() == 20 && address.len() == 20);
    assert forall|i: int| 0 <= i < 20 implies #[trigger] address[i] == (if i % 2 == 0 { 0xc0u8 } else { 0xbeu8 }) by {
        assert(FOUNDRY_COVERAGE_ADDRESS[i] == (if i % 2 == 0 { 0xc0u8 } else { 0xbeu8 }));
    }
    if forall|i: int| 0 <= i < 20 ==> #[trigger] own[i] == (if i % 2 == 0 { 0xc0u8 } else { 0xbeu8 }) {
        assert forall|i: int| 0 <= i < 20 implies own[i] == address[i] by {}
        assert(own =~= address);
    }
}

/// Collects the hits of probes, and hides the probes from what the contracts can see of earlier
/// calls: a probe answers with what the last call of its frame returned.
#[derive(Debug)]
pub struct InstrumentedCoverageCollector {
    hits: InstrumentedHitMaps,
    /// What the last call returned, for each depth of frames.
    frame_return_data: Vec<Vec<u8>>,
}

impl InstrumentedCoverageCollector {
    /// The hits so far.
    pub closed spec fn hits(&self) -> Map<Seq<u8>, u64> {
        self.hits@
    }

    /// What the last call of the frame at a depth returned.
    pub closed spec fn frame(&self, depth: int) -> Seq<u8> {
        if 0 <= depth < self.frame_return_data@.len() {
            self.frame_return_data@[depth]@
        } else {
            Seq::empty()
        }
    }

    /// What the last call returned is as in `before`, but for the frame at `depth`.
    pub open spec fn keeps_other_frames(&self, before: &InstrumentedCoverageCollector, depth: int) -> bool {
        forall|d: int| d != depth ==> #[trigger] self.frame(d) == before.frame(d)
    }

    /// A collector without hits.
    pub fn new() -> (collector: Self)
        ensures
            collector.hits() == Map::<Seq<u8>, u64>::empty(),
            forall|d: int| #[trigger] collector.frame(d) == Seq::<u8>::empty(),
    {
        InstrumentedCoverageCollector { hits: InstrumentedHitMaps::new(), frame_return_data: Vec::new() }
    }

    /// Ends the collection.
    pub fn finish(self) -> (hits: InstrumentedHitMaps)
        ensures
            hits@ == self.hits(),
    {
        self.hits
    }

    /// Whether a call is a probe.
    pub fn is_coverage_call(inputs: &CallInputs) -> (probe: bool)
        ensures
            probe == is_probe(*inputs),
    {
        let address = FOUNDRY_COVERAGE_ADDRESS;
        same_bytes(inputs.bytecode_address.as_slice(), address.as_slice()) && inputs.scheme == CallScheme::StaticCall
    }

    /// What the last call of the frame at a depth returned.
    fn frame_return_data(&self, depth: usize) -> (data: Vec<u8>)
        ensures
            data@ == self.frame(depth as int),
    {
        if depth < self.frame_return_data.len() {
            copy_bytes(self.frame_return_data[depth].as_slice())
        } else {
            let empty: Vec<u8> = Vec::new();
            assert(empty@ =~= Seq::empty());
            empty
        }
    }

    fn set_frame_return_data(&mut self, depth: usize, output: Vec<u8>)
        ensures
            final(self).hits() == old(self).hits(),
            final(self).frame(depth as int) == output@,
            final(self).keeps_other_frames(old(self), depth as int),
    {
        while self.frame_return_data.len() <= depth
            invariant
                self.hits == old(self).hits,
                forall|d: int| #[trigger] self.frame(d) == old(self).frame(d),
            decreases depth + 1 - self.frame_return_data@.len(),
        {
            let ghost before = *self;
            self.frame_return_data.push(Vec::new());
            assert forall|d: int| #[trigger] self.frame(d) == old(self).frame(d) by {
                assert(before.frame(d) == old(self).frame(d));
                assert(self.frame(d) =~= before.frame(d));
            }
        }
        let ghost before = *self;
        self.frame_return_data.set(depth, output);
        assert forall|d: int| d != depth implies #[trigger] self.frame(d) == old(self).frame(d) by {
            assert(before.frame(d) == old(self).frame(d));
        }
    }

    /// A frame begins: no call of it has returned anything.
    pub fn initialize_interp(&mut self, depth: usize)
        ensures
            final(self).hits() == old(self).hits(),
            final(self).frame(depth as int) == Seq::<u8>::empty(),
            final(self).keeps_other_frames(old(self), depth as int),
    {
        let empty: Vec<u8> = Vec::new();
        assert(empty@ =~= Seq::empty());
        self.set_frame_return_data(depth, empty);
    }

    /// Whether the hit of a call, if it is a probe, can be counted.
    pub fn can_count(&self, inputs: &CallInputs) -> (can: bool)
        ensures
            can == (is_probe(*inputs) && inputs.input@.len() == 32 ==> count_of(self.hits(), inputs.input@)
                < u64::MAX),
    {
        if !Self::is_coverage_call(inputs) || inputs.input.len() != 32 {
            return true;
        }
        match self.hits.get(&tag_of_input(&inputs.input)) {
            Some(count) => count < u64::MAX,
            None => true,
        }
    }

    /// A call is about to be made. A probe is answered here, and its tag is hit if it sends one; any
    /// other call goes ahead.
    pub fn call(&mut self, depth: usize, inputs: &CallInputs) -> (outcome: Option<ProbeOutcome>)
        requires
            is_probe(*inputs) && inputs.input@.len() == 32 ==> count_of(old(self).hits(), inputs.input@) < u64::MAX,
        ensures
            outcome is Some <==> is_probe(*inputs),
            outcome is Some ==> {
                &&& outcome->0.output@ == old(self).frame(depth as int)
                &&& outcome->0.gas_limit == inputs.gas_limit
                &&& outcome->0.memory_offset == inputs.return_memory_offset
            },
            final(self).hits() == (if is_probe(*inputs) && inputs.input@.len() == 32 {
                old(self).hits().insert(inputs.input@, (count_of(old(self).hits(), inputs.input@) + 1) as u64)
            } else {
                old(self).hits()
            }),
            forall|d: int| #[trigger] final(self).frame(d) == old(self).frame(d),
    {
        if !Self::is_coverage_call(inputs) {
            return None;
        }
        if inputs.input.len() == 32 {
            let tag = tag_of_input(&inputs.input);
            self.hits.hit(tag);
        }
        let ghost hit = *self;
        assert forall|d: int| #[trigger] self.frame(d) == old(self).frame(d) by {}
        let output = self.frame_return_data(depth);
        Some(
            ProbeOutcome {
                output,
                gas_limit: inputs.gas_limit,
                memory_offset: inputs.return_memory_offset.start..inputs.return_memory_offset.end,
            },
        )
    }

    /// A call ended: what it returned is kept for its frame, unless it was a probe.
    pub fn call_end(&mut self, depth: usize, inputs: &CallInputs, output: &[u8])
        ensures
            final(self).hits() == old(self).hits(),
            final(self).frame(depth as int) == (if is_probe(*inputs) {
                old(self).frame(depth as int)
            } else {
                output@
            }),
            final(self).keeps_other_frames(old(self), depth as int),
    {
        if !Self::is_coverage_call(inputs) {
            let copy = copy_bytes(output);
            self.set_frame_return_data(depth, copy);
        }
    }

    /// A creation ended: it returns something to its frame only if it was reverted.
    pub fn create_end(&mut self, depth: usize, reverted: bool, output: &[u8])
        ensures
            final(self).hits() == old(self).hits(),
            final(self).frame(depth as int) == (if reverted { output@ } else { Seq::<u8>::empty() }),
            final(self).keeps_other_frames(old(self), depth as int),
    {
        let kept = if reverted {
            copy_bytes(output)
        } else {
            Vec::new()
        };
        assert(!reverted ==> kept@ =~= Seq::empty());
        self.set_frame_return_data(depth, kept);
    }
}

impl Clone for InstrumentedCoverageCollector {
    fn clone(&self) -> (copy: Self)
        ensures
            copy.hits() == self.hits(),
            forall|d: int| #[trigger] copy.frame(d) == self.frame(d),
    {
        let mut frames: Vec<Vec<u8>> = Vec::new();
        let mut i: usize = 0;
        while i < self.frame_return_data.len()
            invariant
                i <= self.frame_return_data@.len(),
                frames@.len() == i,
                forall|k: int| 0 <= k < i ==> (#[trigger] frames@[k])@ == self.frame_return_data@[k]@,
            decreases self.frame_return_data@.len() - i,
        {
            frames.push(copy_bytes(self.frame_return_data[i].as_slice()));
            i += 1;
        }
        InstrumentedCoverageCollector { hits: self.hits.clone(), frame_return_data: frames }
    }
}

}
