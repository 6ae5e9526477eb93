//! Unit checks of the arithmetic, the windows, the configuration builder,
//! and the wallet helpers.

use kaspadag::config::{Config, ConfigBuilder, Params, PerfParams};
use kaspadag::errors::RuleError;
use kaspadag::header::Header;
use kaspadag::processor::HeaderProcessor;
use kaspadag::relations::{MTRelationsService, RelationsStore};
use kaspadag::status::BlockStatus;
use kaspadag::pow::{calc_block_level, pow_passes, target_from_bits, work_from_bits};
use kaspadag::wallet::{default_path, is_fully_signed, InputMetaData, PubKeySigPair, COIN_TYPE};
use kaspadag::set_cache::SetCache;
use kaspadag::windows::{expected_bits, median};

fn params() -> Params {
    Params {
        max_block_level: 5,
        k_per_level: vec![10; 6],
        difficulty_window_size: 11,
        timestamp_deviation_tolerance: 132,
        target_time_per_block: 1000,
        mergeset_size_limit: 180,
        max_block_parents: 10,
        genesis_hash: 7,
        genesis_bits: 0x207FFFFF,
        genesis_timestamp: 0,
        skip_proof_of_work: false,
    }
}

#[test]
fn target_decoding() {
    // mantissa * 256^(exponent - 3), saturated at the maximum.
    assert_eq!(target_from_bits(0x03000001), 1);
    assert_eq!(target_from_bits(0x04000001), 256);
    assert_eq!(target_from_bits(0x05000002), 2 * 65536);
    // An exponent below three shifts the mantissa down.
    assert_eq!(target_from_bits(0x02000100), 1);
    assert_eq!(target_from_bits(0x01000001), 0);
    // A huge exponent saturates.
    assert_eq!(target_from_bits(0x14FFFFFF), u128::MAX);
}

#[test]
fn work_from_target() {
    // Work is MAX / (target + 1).
    assert_eq!(work_from_bits(0x14FFFFFF), 0);
    assert_eq!(work_from_bits(0x03000001), u128::MAX / 2);
    assert_eq!(work_from_bits(0x04000001), u128::MAX / 257);
}

#[test]
fn pow_and_block_level() {
    // A hash within the target passes; each level halves the allowance.
    assert!(pow_passes(100, 0x04000001));
    assert!(!pow_passes(257, 0x04000001));
    assert_eq!(calc_block_level(256, 0x04000001, 5, false), 0);
    assert_eq!(calc_block_level(128, 0x04000001, 5, false), 1);
    assert_eq!(calc_block_level(1, 0x04000001, 5, false), 5);
    // Disabled proof of work grants the maximum level.
    assert_eq!(calc_block_level(u64::MAX, 0x04000001, 5, true), 5);
}

#[test]
fn median_is_the_middle_of_the_sorted_window() {
    assert_eq!(median(&vec![5]), 5);
    assert_eq!(median(&vec![3, 1, 2]), 2);
    assert_eq!(median(&vec![9, 1, 7, 3, 5]), 5);
    // Even length takes the upper middle.
    assert_eq!(median(&vec![4, 1, 3, 2]), 3);
    assert_eq!(median(&vec![2, 2, 1, 1]), 2);
}

#[test]
fn expected_bits_is_the_window_average() {
    // A short window keeps the genesis difficulty.
    assert_eq!(expected_bits(&vec![5, 7], 3, 99), 99);
    assert_eq!(expected_bits(&Vec::new(), 3, 99), 99);
    // A full window averages the bits.
    assert_eq!(expected_bits(&vec![5, 7, 9], 3, 99), 7);
    assert_eq!(expected_bits(&vec![5, 7, 9, 10], 3, 99), 7);
}

#[test]
fn config_builder_switches() {
    let c = ConfigBuilder::new(params())
        .set_perf_params(PerfParams { block_window_cache_size: 4 })
        .skip_proof_of_work()
        .set_archival()
        .enable_sanity_checks()
        .skip_adding_genesis()
        .build();
    assert!(c.params.skip_proof_of_work);
    assert!(c.is_archival);
    assert!(c.enable_sanity_checks);
    assert!(!c.process_genesis);
    assert_eq!(c.perf.block_window_cache_size, 4);
    let d = Config::new(params());
    assert!(d.process_genesis);
    assert!(!d.params.skip_proof_of_work);
}

#[test]
fn wallet_signing_state() {
    let pair_signed = || PubKeySigPair { extended_pubkey: String::from("kpub-a"), signature: Some(vec![1, 2]) };
    let pair_unsigned = || PubKeySigPair { extended_pubkey: String::from("kpub-b"), signature: None };
    let input = |min: usize, pairs: Vec<PubKeySigPair>| InputMetaData {
        min_signatures: min,
        pub_key_sig_pairs: pairs,
        derivation_path: default_path(false),
    };
    // Enough signatures on every input.
    assert!(is_fully_signed(&vec![input(1, vec![pair_signed(), pair_unsigned()])]));
    // One input short of its minimum.
    assert!(!is_fully_signed(&vec![
        input(1, vec![pair_signed()]),
        input(2, vec![pair_signed(), pair_unsigned()]),
    ]));
    // No inputs at all counts as signed.
    assert!(is_fully_signed(&Vec::new()));
    assert_eq!(default_path(false), "m/44'/111111'/0");
    assert_eq!(default_path(true), "m/45'/111111'/0");
    assert_eq!(COIN_TYPE, 111111);
}

#[test]
fn relations_service_reads_one_level() {
    let mut level0 = RelationsStore::new();
    level0.insert(0, Vec::new());
    level0.insert(5, vec![0]);
    let level1 = RelationsStore::new();
    let svc = MTRelationsService::new(vec![level0, level1], 0);
    assert!(svc.has(5));
    assert_eq!(svc.get_parents(5).unwrap(), vec![0]);
    assert_eq!(svc.get_children(0).unwrap(), vec![5]);
    assert_eq!(svc.counts(), (2, 2));
    let svc1_has = {
        let mut l0 = RelationsStore::new();
        l0.insert(0, Vec::new());
        let l1 = RelationsStore::new();
        MTRelationsService::new(vec![l0, l1], 1).has(0)
    };
    assert!(!svc1_has);
}

#[test]
fn mergeset_size_limit_enforced() {
    let tight = Params {
        max_block_level: 0,
        k_per_level: vec![3],
        difficulty_window_size: 1000,
        timestamp_deviation_tolerance: 132,
        target_time_per_block: 1000,
        mergeset_size_limit: 1,
        max_block_parents: 10,
        genesis_hash: 7,
        genesis_bits: 0x14FFFFFF,
        genesis_timestamp: 1000,
        skip_proof_of_work: true,
    };
    let mut p = HeaderProcessor::new(&Config::new(tight));
    p.process_origin_if_needed();
    p.process_genesis_if_needed();
    let mk = |hash: u64, parents: Vec<u64>, ts: u64| Header {
        hash,
        parents_by_level: vec![parents],
        timestamp: ts,
        bits: 0x14FFFFFF,
        blue_work: 0,
        block_level: 0,
    };
    assert_eq!(p.process_header(&mk(100, vec![7], 2000)), Ok(BlockStatus::HeaderOnly));
    assert_eq!(p.process_header(&mk(200, vec![7], 2000)), Ok(BlockStatus::HeaderOnly));
    assert_eq!(p.process_header(&mk(300, vec![7], 2000)), Ok(BlockStatus::HeaderOnly));
    // A block merging three tips has a two-strong mergeset: over the limit.
    assert_eq!(
        p.process_header(&mk(400, vec![100, 200, 300], 3000)),
        Err(RuleError::MergesetTooLarge(2))
    );
    assert_eq!(p.statuses_store.get(400), Some(BlockStatus::Invalid));
}


#[test]
fn set_cache_is_bounded_with_random_eviction() {
    let mut c = SetCache::new(4);
    for k in 1..=20u64 {
        c.insert(k, vec![k, k + 1]);
        // The most recent insertion is always present, within the bound.
        assert!(c.contains_key(k));
        let mut held = 0;
        for q in 1..=20u64 {
            if c.contains_key(q) {
                held += 1;
            }
        }
        assert!(held <= 4);
    }
    // In-place edits respect the cached set.
    c.insert(100, vec![1]);
    c.append_if_entry_exists(100, 2);
    assert_eq!(c.get(100).unwrap(), &vec![1, 2]);
    c.remove_if_entry_exists(100, 1);
    assert_eq!(c.get(100).unwrap(), &vec![2]);
    c.remove(100);
    assert!(!c.contains_key(100));
    c.insert(200, vec![9]);
    c.remove_all();
    assert!(!c.contains_key(200));
    // A zero-sized cache stores nothing.
    let mut z = SetCache::new(0);
    z.insert(1, vec![1]);
    assert!(!z.contains_key(1));
}


#[test]
fn timestamp_window_follows_the_deviation_tolerance() {
    // With a zero tolerance the median window is empty, so the past-median
    // rule never fires; with a positive tolerance it does.
    let with_tolerance = |tolerance: u64| Params {
        max_block_level: 0,
        k_per_level: vec![3],
        difficulty_window_size: 1000,
        timestamp_deviation_tolerance: tolerance,
        target_time_per_block: 1000,
        mergeset_size_limit: 100,
        max_block_parents: 10,
        genesis_hash: 7,
        genesis_bits: 0x14FFFFFF,
        genesis_timestamp: 1000,
        skip_proof_of_work: true,
    };
    let mk = |hash: u64, parents: Vec<u64>, ts: u64| Header {
        hash,
        parents_by_level: vec![parents],
        timestamp: ts,
        bits: 0x14FFFFFF,
        blue_work: 0,
        block_level: 0,
    };
    let mut p = HeaderProcessor::new(&Config::new(with_tolerance(0)));
    p.process_origin_if_needed();
    p.process_genesis_if_needed();
    // A timestamp below genesis' is accepted: no window, no median.
    assert_eq!(p.process_header(&mk(100, vec![7], 5)), Ok(BlockStatus::HeaderOnly));
    // With tolerance 132 the same header is stale.
    let mut q = HeaderProcessor::new(&Config::new(with_tolerance(132)));
    q.process_origin_if_needed();
    q.process_genesis_if_needed();
    assert_eq!(q.process_header(&mk(100, vec![7], 5)), Err(RuleError::InvalidHeaderStructure));
}
