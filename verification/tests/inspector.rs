use alloy_primitives::B256;
use forge_coverage::hit_maps::{CallData, HitMap, HitMaps};
use forge_coverage::inspector::{
    CallInputs, CallScheme, InstrumentedCoverageCollector, LineCoverageCollector, FOUNDRY_COVERAGE_ADDRESS,
};
use forge_coverage::replay::{
    replay_error, replay_run, set_up_inner_replay, shrink_mode, CallGenerator, CallResult, Fuzzer, InvariantResult,
    Replay, ReplayAction, ReplayEvent, ShrinkMode,
};
use forge_coverage::tags::InstrumentedHitMaps;

fn tag(byte: u8) -> [u8; 32] {
    B256::repeat_byte(byte).0
}

fn hits(counts: &[(u8, u64)]) -> InstrumentedHitMaps {
    InstrumentedHitMaps(counts.iter().map(|(byte, count)| (B256::repeat_byte(*byte), *count)).collect())
}

fn probe(input: Vec<u8>, address: [u8; 20], scheme: CallScheme) -> CallInputs {
    CallInputs { bytecode_address: address, scheme, input, gas_limit: 77, return_memory_offset: 3..9 }
}

#[test]
fn first_instrumented_merge_retains_allocation() {
    let mut incoming = InstrumentedHitMaps::new();
    incoming.hit(B256::ZERO.0);
    let allocation = format!("{:p}", incoming.0.get(&B256::ZERO).unwrap());
    let mut target = None;
    InstrumentedHitMaps::merge_opt(&mut target, Some(incoming));
    let merged = target.unwrap();
    assert_eq!(merged.0.get(&B256::ZERO), Some(&1));
    assert_eq!(format!("{:p}", merged.0.get(&B256::ZERO).unwrap()), allocation);
}

#[test]
fn instrumented_merge_sums_overlapping_tags() {
    let mut target = InstrumentedHitMaps::new();
    target.hit(B256::ZERO.0);
    let mut incoming = InstrumentedHitMaps::new();
    incoming.hit(B256::ZERO.0);
    incoming.hit(B256::with_last_byte(1).0);
    let mut target = Some(target);
    InstrumentedHitMaps::merge_opt(&mut target, Some(incoming));
    InstrumentedHitMaps::merge_opt(&mut target, None);
    let merged = target.unwrap();
    assert_eq!(merged.0.get(&B256::ZERO), Some(&2));
    assert_eq!(merged.0.get(&B256::with_last_byte(1)), Some(&1));
}

#[test]
fn copies_count_on_their_own() {
    let mut collector = LineCoverageCollector::new();
    collector.step(&tag(1), &[0x5b], 0);
    let mut copy = collector.clone();
    copy.step(&tag(1), &[0x5b], 0);
    assert_eq!(copy.finish().get(&tag(1)).unwrap().get(0), Some(2));
    assert_eq!(collector.finish().get(&tag(1)).unwrap().get(0), Some(1));

    let mut hits = hits(&[(1, 2)]);
    let copy = hits.clone();
    hits.hit(tag(1));
    assert_eq!((hits.get(&tag(1)), copy.get(&tag(1))), (Some(3), Some(2)));

    let mut collector = InstrumentedCoverageCollector::new();
    collector.create_end(1, true, &[9]);
    let mut copy = collector.clone();
    let hit = probe(vec![8; 32], FOUNDRY_COVERAGE_ADDRESS, CallScheme::StaticCall);
    assert_eq!(copy.call(1, &hit).unwrap().output, vec![9]);
    assert_eq!(copy.finish().get(&[8; 32]), Some(1));
    assert_eq!(collector.finish().get(&[8; 32]), None);
}

#[test]
fn merging_nothing_changes_nothing() {
    let mut target = Some(hits(&[(1, 2)]));
    InstrumentedHitMaps::merge_opt(&mut target, None);
    assert_eq!(target.unwrap().get(&tag(1)), Some(2));
    let mut left = hits(&[(1, 2), (4, 9)]);
    let mut right = hits(&[(1, 5)]);
    right.merge_ref(&left);
    left.merge(hits(&[(1, 5)]));
    for byte in 0..6 {
        assert_eq!(left.get(&tag(byte)), right.get(&tag(byte)));
    }
    left.hit(tag(9));
    left.hit(tag(9));
    assert_eq!(left.get(&tag(9)), Some(2));
}

#[test]
fn coverage_address_is_the_sentinel() {
    let address: alloy_primitives::Address = "0xc0bEc0BEc0BeC0bEC0beC0bEC0bEC0beC0beC0BE".parse().unwrap();
    assert_eq!(FOUNDRY_COVERAGE_ADDRESS, address.0 .0);
}

#[test]
fn probes_are_counted_and_hidden() {
    let mut collector = InstrumentedCoverageCollector::new();
    collector.initialize_interp(1);
    let other = probe(vec![1, 2], [0x11; 20], CallScheme::Call);
    assert!(collector.call(1, &other).is_none());
    collector.call_end(1, &other, &[5, 6, 7]);

    let hit = probe(vec![8; 32], FOUNDRY_COVERAGE_ADDRESS, CallScheme::StaticCall);
    let outcome = collector.call(1, &hit).unwrap();
    assert_eq!(outcome.output, vec![5, 6, 7]);
    assert_eq!(outcome.gas_limit, 77);
    assert_eq!(outcome.memory_offset, 3..9);
    collector.call_end(1, &hit, &[]);
    assert_eq!(collector.call(1, &hit).unwrap().output, vec![5, 6, 7]);
    assert_eq!(collector.call(2, &hit).unwrap().output, Vec::<u8>::new());

    let short = probe(vec![8; 31], FOUNDRY_COVERAGE_ADDRESS, CallScheme::StaticCall);
    assert!(collector.call(1, &short).is_some());
    let delegated = probe(vec![8; 32], FOUNDRY_COVERAGE_ADDRESS, CallScheme::DelegateCall);
    assert!(collector.call(1, &delegated).is_none());

    collector.create_end(1, true, &[1]);
    assert_eq!(collector.call(1, &short).unwrap().output, vec![1]);
    collector.create_end(1, false, &[1]);
    assert_eq!(collector.call(1, &short).unwrap().output, Vec::<u8>::new());
    assert_eq!(collector.finish().get(&[8; 32]), Some(3));
}

#[test]
fn lines_are_counted_per_contract() {
    let mut collector = LineCoverageCollector::new();
    let (a, b) = (tag(1), tag(2));
    collector.initialize_interp(&a, &[0x60, 0x01, 0x00], Some((&[1, 2, 3, 4, 5], true)));
    collector.step(&a, &[0x60, 0x01, 0x00], 0);
    collector.step(&a, &[0x60, 0x01, 0x00], 2);
    collector.initialize_interp(&b, &[0x00], None);
    collector.step(&b, &[0x00], 0);
    collector.step(&a, &[0x60, 0x01, 0x00], 2);
    collector.create_end(&b, true);
    collector.create_end(&a, false);
    collector.create_end(&tag(3), true);
    let maps = collector.finish();
    assert_eq!(maps.len(), 2);
    let map = maps.get(&a).unwrap();
    assert_eq!(map.bytecode(), &vec![0x60, 0x01, 0x00]);
    assert_eq!((map.get(0), map.get(1), map.get(2)), (Some(1), None, Some(2)));
    assert_eq!(map.call_count(CallData::Selector(0x01020304), true), 1);
    assert_eq!(map.call_count(CallData::Selector(0x01020304), false), 0);
    assert_eq!((map.creations(), maps.get(&b).unwrap().creations()), (0, 1));
    assert_eq!(CallData::new(&[]), CallData::Empty);
    assert_eq!(CallData::new(&[1]), CallData::Short);
}

#[test]
fn hit_maps_merge() {
    let map = |pc: u32, count: u32| {
        let mut maps = HitMaps::new();
        let slot = maps.find_or_insert(&tag(7), &[1, 2]);
        for _ in 0..count {
            maps.hit(slot, pc);
        }
        maps.call(slot, CallData::Empty, false);
        maps.creation(slot);
        maps
    };
    let mut target = Some(map(4, 2));
    HitMaps::merge_opt(&mut target, Some(map(4, 3)));
    HitMaps::merge_opt(&mut target, None);
    let target = target.unwrap();
    assert_eq!(target.len(), 1);
    let merged = target.get(&tag(7)).unwrap();
    assert_eq!(merged.get(4), Some(5));
    assert_eq!(merged.call_count(CallData::Empty, false), 2);
    assert_eq!(merged.creations(), 2);
    let mut full = HitMap::new(vec![]);
    full.hits(9, u32::MAX);
    full.hit(9);
    assert_eq!(full.clone().get(9), Some(u32::MAX));
}

#[test]
fn replayed_sequence_retains_instrumented_hits() {
    let mut replay: Replay<u8, u8, usize> = Replay::new(2, false, vec![], vec![], None, None);
    let mut action = replay_run(&mut replay, ReplayEvent::Started);
    while let ReplayAction::Call(call) = action {
        let mut collector = InstrumentedCoverageCollector::new();
        let input = B256::with_last_byte(1).to_vec();
        collector.call(1, &probe(input, FOUNDRY_COVERAGE_ADDRESS, CallScheme::StaticCall));
        let result = CallResult {
            logs: vec![],
            trace: 0,
            line_coverage: None,
            instrumented_coverage: Some(collector.finish()),
        };
        action = replay_run(&mut replay, ReplayEvent::Called(result, call));
    }
    assert_eq!(action, ReplayAction::CallInvariant);
    let result = InvariantResult { success: true, fork_block_number: None, logs: vec![], trace: 0 };
    assert_eq!(replay_run(&mut replay, ReplayEvent::InvariantCalled(result)), ReplayAction::Finish);
    let hits = replay.instrumented_coverage.expect("invariant replay lost its coverage");
    assert_eq!(hits.0.len(), 1);
    assert_eq!(hits.0.get(&B256::with_last_byte(1)), Some(&2));
}

#[test]
fn replay_calls_what_follows_the_invariant_only_if_it_holds() {
    for (success, wanted) in [(true, ReplayAction::CallAfterInvariant), (false, ReplayAction::Finish)] {
        let mut replay: Replay<u8, u8, u8> = Replay::new(0, true, vec![1], vec![], None, None);
        assert_eq!(replay_run(&mut replay, ReplayEvent::Started), ReplayAction::CallInvariant);
        let result = InvariantResult { success, fork_block_number: Some(5), logs: vec![2], trace: 3 };
        assert_eq!(replay_run(&mut replay, ReplayEvent::InvariantCalled(result)), wanted);
        if success {
            let after = InvariantResult { success: true, fork_block_number: None, logs: vec![4], trace: 6 };
            assert_eq!(replay_run(&mut replay, ReplayEvent::AfterInvariantCalled(after)), ReplayAction::Finish);
            assert_eq!((&replay.logs, &replay.traces), (&vec![1, 2, 4], &vec![3, 6]));
        }
        assert_eq!(replay.fork_block_number, Some(5));
        let mode = shrink_mode(&Some(1u8));
        assert_eq!(mode, ShrinkMode::Value);
        assert_eq!(replay_error(replay, mode, Some(9u8)).check_result, None);
    }
    let replay: Replay<u8, u8, u8> = Replay {
        calls: 0,
        call_after_invariant: false,
        next: ReplayAction::Finish,
        logs: vec![],
        traces: vec![],
        line_coverage: None,
        instrumented_coverage: None,
        counterexample_sequence: vec![7],
        fork_block_number: None,
    };
    let result = replay_error(replay, shrink_mode::<u8>(&None), Some(9u8));
    assert_eq!((result.check_result, result.counterexample_sequence), (Some(9), vec![7]));
}

#[test]
fn inner_calls_are_replayed_where_they_are_made_up() {
    let mut fuzzer = Some(Fuzzer { call_generator: Some(CallGenerator { last_sequence: vec![], replay: false }) });
    set_up_inner_replay(&mut fuzzer, vec![Some(1), None]);
    let generator = fuzzer.unwrap().call_generator.unwrap();
    assert!(generator.replay);
    assert_eq!(generator.last_sequence, vec![Some(1), None]);
    let mut idle: Option<Fuzzer<u8>> = Some(Fuzzer { call_generator: None });
    set_up_inner_replay(&mut idle, vec![]);
    assert!(idle.unwrap().call_generator.is_none());
}
