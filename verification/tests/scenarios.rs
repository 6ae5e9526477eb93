//! End-to-end scenarios over the header processor.

use kaspadag::config::{Config, Params, PerfParams};
use kaspadag::deps_manager::BlockTaskDependencyManager;
use kaspadag::errors::RuleError;
use kaspadag::hashes::ORIGIN;
use kaspadag::header::Header;
use kaspadag::processor::HeaderProcessor;
use kaspadag::status::BlockStatus;
use kaspadag::stores::SortableBlock;

const GENESIS: u64 = 7;
const BITS: u32 = 0x14FFFFFF;

fn test_params() -> Params {
    Params {
        max_block_level: 0,
        k_per_level: vec![3],
        difficulty_window_size: 1000,
        timestamp_deviation_tolerance: 132,
        target_time_per_block: 1000,
        mergeset_size_limit: 100,
        max_block_parents: 10,
        genesis_hash: GENESIS,
        genesis_bits: BITS,
        genesis_timestamp: 1000,
        skip_proof_of_work: true,
    }
}

fn booted_processor() -> HeaderProcessor {
    let config = Config::with_perf(test_params(), PerfParams { block_window_cache_size: 16 });
    let mut p = HeaderProcessor::new(&config);
    p.process_origin_if_needed();
    p.process_genesis_if_needed();
    p
}

fn header(hash: u64, parents: Vec<u64>, timestamp: u64) -> Header {
    Header {
        hash,
        parents_by_level: vec![parents],
        timestamp,
        bits: BITS,
        blue_work: 0,
        block_level: 0,
    }
}

#[test]
fn genesis_bootstrap() {
    // Start empty, run both bootstrap routines, and inspect the stores.
    let mut p = booted_processor();
    assert_eq!(
        p.relations_stores[0].get_parents(ORIGIN).unwrap(),
        Vec::<u64>::new()
    );
    assert_eq!(p.relations_stores[0].get_parents(GENESIS).unwrap(), vec![ORIGIN]);
    assert_eq!(p.statuses_store.get(GENESIS), Some(BlockStatus::HeaderOnly));
    assert_eq!(
        p.headers_selected_tip_store.get().unwrap(),
        SortableBlock { hash: GENESIS, blue_work: 0 }
    );
    // Re-running either routine changes nothing.
    p.process_origin_if_needed();
    p.process_genesis_if_needed();
    assert_eq!(p.statuses_store.get(GENESIS), Some(BlockStatus::HeaderOnly));
}

#[test]
fn linear_chain() {
    let mut p = booted_processor();
    let h1 = header(100, vec![GENESIS], 2000);
    let h2 = header(200, vec![100], 3000);
    assert_eq!(p.process_header(&h1), Ok(BlockStatus::HeaderOnly));
    assert_eq!(p.process_header(&h2), Ok(BlockStatus::HeaderOnly));
    assert_eq!(
        p.headers_selected_tip_store.get().unwrap(),
        SortableBlock { hash: 200, blue_work: 0 }
    );
    assert!(p.reachability_store.is_dag_ancestor_of(100, 200));
    assert!(!p.reachability_store.is_dag_ancestor_of(200, 100));
    assert!(p.reachability_store.is_dag_ancestor_of(GENESIS, 200));
}

#[test]
fn parallel_branch() {
    let mut p = booted_processor();
    let h1 = header(100, vec![GENESIS], 2000);
    let h2 = header(200, vec![GENESIS], 2000);
    assert_eq!(p.process_header(&h1), Ok(BlockStatus::HeaderOnly));
    assert_eq!(p.process_header(&h2), Ok(BlockStatus::HeaderOnly));
    // Equal blue work: the greater hash wins the tip.
    assert_eq!(
        p.headers_selected_tip_store.get().unwrap(),
        SortableBlock { hash: 200, blue_work: 0 }
    );
    // Each lies in the other's anticone.
    assert!(!p.reachability_store.is_dag_ancestor_of(100, 200));
    assert!(!p.reachability_store.is_dag_ancestor_of(200, 100));
    // Genesis has both as children.
    let children = p.relations_stores[0].get_children(GENESIS).unwrap();
    assert!(children.contains(&100));
    assert!(children.contains(&200));
}

#[test]
fn out_of_order_arrival() {
    let mut p = booted_processor();
    let mut mgr = BlockTaskDependencyManager::new();
    let h1 = header(100, vec![GENESIS], 2000);
    let h2 = header(200, vec![100], 3000);
    // The child arrives first: it stays pending.
    assert!(!mgr.register(h2, vec![42], &p.statuses_store));
    assert_eq!(p.statuses_store.get(200), None);
    // The parent arrives: it is ready at once.
    assert!(mgr.register(h1, vec![7], &p.statuses_store));
    let b1 = mgr.try_begin(100).unwrap();
    assert_eq!(p.process_header(&b1), Ok(BlockStatus::HeaderOnly));
    // Ending the parent yields the now-ready child, with the parent's sinks.
    let (sinks1, ready) = mgr.end(100, &p.statuses_store).unwrap();
    assert_eq!(sinks1, vec![7]);
    assert_eq!(ready, vec![200]);
    let b2 = mgr.try_begin(200).unwrap();
    assert_eq!(p.process_header(&b2), Ok(BlockStatus::HeaderOnly));
    let (sinks2, ready2) = mgr.end(200, &p.statuses_store).unwrap();
    assert_eq!(sinks2, vec![42]);
    assert!(ready2.is_empty());
    assert!(mgr.is_idle());
}

#[test]
fn known_invalid_reference() {
    let mut p = booted_processor();
    // Corrupt proof of work: the declared level disagrees with the granted
    // one once proof of work is enforced.
    let config = Config::new(Params { skip_proof_of_work: false, ..test_params() });
    let mut strict = HeaderProcessor::new(&config);
    strict.process_origin_if_needed();
    strict.process_genesis_if_needed();
    // A hash larger than the level-0 target fails the proof-of-work check.
    let bad = Header {
        hash: 100,
        parents_by_level: vec![vec![GENESIS]],
        timestamp: 2000,
        bits: 0x01000001, // target 0: nothing passes
        blue_work: 0,
        block_level: 0,
    };
    assert_eq!(strict.process_header(&bad), Err(RuleError::InvalidProofOfWork));
    assert_eq!(strict.statuses_store.get(100), Some(BlockStatus::Invalid));
    // A child of the invalid block fails as known-invalid, with no writes.
    let child = header(200, vec![100], 3000);
    assert_eq!(strict.process_header(&child), Err(RuleError::KnownInvalid));
    assert_eq!(strict.statuses_store.get(200), None);
    assert!(!strict.headers_store.has(200));
    // In the lenient processor the same child fails for the missing parent.
    assert_eq!(p.process_header(&child), Err(RuleError::ParentNotFound(100)));
}

#[test]
fn resubmission_idempotence() {
    let mut p = booted_processor();
    let h1 = header(100, vec![GENESIS], 2000);
    assert_eq!(p.process_header(&h1), Ok(BlockStatus::HeaderOnly));
    let tip = p.headers_selected_tip_store.get().unwrap();
    let count = p.counters.header_counts;
    // Re-submitting returns the prior status and changes nothing.
    assert_eq!(p.process_header(&h1), Ok(BlockStatus::HeaderOnly));
    assert_eq!(p.headers_selected_tip_store.get().unwrap(), tip);
    assert_eq!(p.counters.header_counts, count);
}

#[test]
fn missing_parents_rejected() {
    let mut p = booted_processor();
    // A non-genesis header without parents is rejected outright.
    let orphan = header(300, vec![], 2000);
    assert_eq!(p.process_header(&orphan), Err(RuleError::MissingParents));
    assert_eq!(p.statuses_store.get(300), None);
}

#[test]
fn structural_rejections() {
    let mut p = booted_processor();
    // Duplicate parents violate the structure rules and mark the hash.
    let dup = header(400, vec![GENESIS, GENESIS], 2000);
    assert_eq!(p.process_header(&dup), Err(RuleError::InvalidHeaderStructure));
    assert_eq!(p.statuses_store.get(400), Some(BlockStatus::Invalid));
    // Too many parents are likewise refused.
    let mut q = booted_processor();
    let crowd = Header {
        hash: 500,
        parents_by_level: vec![(0..11).map(|i| i + 1000).collect()],
        timestamp: 2000,
        bits: BITS,
        blue_work: 0,
        block_level: 0,
    };
    // The parents are unknown, so the parent check fires first.
    assert!(matches!(q.process_header(&crowd), Err(RuleError::ParentNotFound(_))));
}

#[test]
fn timestamp_and_difficulty_rules() {
    let mut p = booted_processor();
    // A timestamp at or below the past median time is refused and marked.
    let stale = header(100, vec![GENESIS], 1000);
    assert_eq!(p.process_header(&stale), Err(RuleError::InvalidHeaderStructure));
    assert_eq!(p.statuses_store.get(100), Some(BlockStatus::Invalid));
    // Wrong difficulty bits are refused with the expected value.
    let wrong_bits = Header {
        hash: 110,
        parents_by_level: vec![vec![GENESIS]],
        timestamp: 2000,
        bits: 0x14FFFFFE,
        blue_work: 0,
        block_level: 0,
    };
    assert_eq!(
        p.process_header(&wrong_bits),
        Err(RuleError::DifficultyMismatch(BITS, 0x14FFFFFE))
    );
    // A wrong blue-work accumulator is a structural violation.
    let wrong_work = Header {
        hash: 120,
        parents_by_level: vec![vec![GENESIS]],
        timestamp: 2000,
        bits: BITS,
        blue_work: 5,
        block_level: 0,
    };
    assert_eq!(p.process_header(&wrong_work), Err(RuleError::InvalidHeaderStructure));
}

#[test]
fn independent_runs_agree() {
    // Two runs over the same headers in different parent-respecting orders
    // leave identical store contents.
    let mut a = booted_processor();
    let mut b = booted_processor();
    let h1 = header(100, vec![GENESIS], 2000);
    let h2 = header(200, vec![GENESIS], 2000);
    let h3 = header(300, vec![100, 200], 3000);
    assert_eq!(a.process_header(&h1), Ok(BlockStatus::HeaderOnly));
    assert_eq!(a.process_header(&h2), Ok(BlockStatus::HeaderOnly));
    assert_eq!(a.process_header(&h3), Ok(BlockStatus::HeaderOnly));
    assert_eq!(b.process_header(&h2), Ok(BlockStatus::HeaderOnly));
    assert_eq!(b.process_header(&h1), Ok(BlockStatus::HeaderOnly));
    assert_eq!(b.process_header(&h3), Ok(BlockStatus::HeaderOnly));
    for h in [GENESIS, 100, 200, 300] {
        assert_eq!(a.statuses_store.get(h), b.statuses_store.get(h));
        let ga = a.ghostdag_stores[0].get(h).unwrap();
        let gb = b.ghostdag_stores[0].get(h).unwrap();
        assert_eq!(ga.selected_parent, gb.selected_parent);
        assert_eq!(ga.blue_score, gb.blue_score);
        assert_eq!(ga.blue_work, gb.blue_work);
        assert_eq!(ga.mergeset_blues, gb.mergeset_blues);
        assert_eq!(ga.mergeset_reds, gb.mergeset_reds);
        let mut pa = a.relations_stores[0].get_parents(h).unwrap();
        let mut pb = b.relations_stores[0].get_parents(h).unwrap();
        pa.sort();
        pb.sort();
        assert_eq!(pa, pb);
    }
    assert_eq!(
        a.headers_selected_tip_store.get().unwrap(),
        b.headers_selected_tip_store.get().unwrap()
    );
}

#[test]
fn ghostdag_blue_score_grows_along_chain() {
    let mut p = booted_processor();
    let h1 = header(100, vec![GENESIS], 2000);
    let h2 = header(200, vec![100], 3000);
    p.process_header(&h1).unwrap();
    p.process_header(&h2).unwrap();
    let g0 = p.ghostdag_stores[0].get(GENESIS).unwrap().blue_score;
    let g1 = p.ghostdag_stores[0].get(100).unwrap().blue_score;
    let g2 = p.ghostdag_stores[0].get(200).unwrap().blue_score;
    assert_eq!(g0, 0);
    assert_eq!(g1, 1);
    assert_eq!(g2, 2);
    // The selected parent chain is recorded.
    assert_eq!(p.ghostdag_stores[0].get(200).unwrap().selected_parent, 100);
    assert_eq!(p.ghostdag_stores[0].get(100).unwrap().selected_parent, GENESIS);
    assert_eq!(p.ghostdag_stores[0].get(GENESIS).unwrap().selected_parent, ORIGIN);
}
