//! Consensus parameters and node configuration.

use vstd::prelude::*;
use crate::hashes::{BlockHash, ORIGIN};

verus! {

/// Consensus-critical parameters.
pub struct Params {
    /// Number of DAG levels above level 0.
    pub max_block_level: u8,
    /// GHOSTDAG k-cluster bound, one entry per level `0..=max_block_level`.
    pub k_per_level: Vec<u16>,
    pub difficulty_window_size: usize,
    pub timestamp_deviation_tolerance: u64,
    pub target_time_per_block: u64,
    pub mergeset_size_limit: u64,
    pub max_block_parents: u8,
    pub genesis_hash: BlockHash,
    pub genesis_bits: u32,
    pub genesis_timestamp: u64,
    pub skip_proof_of_work: bool,
}

impl Params {
    /// Structural soundness of a parameter set: one k per level, a genesis
    /// distinct from the virtual origin, and non-degenerate bounds.
    pub open spec fn wf(&self) -> bool {
        &&& self.k_per_level@.len() == self.max_block_level as int + 1
        &&& self.genesis_hash != ORIGIN
        &&& self.max_block_parents >= 1
        &&& self.mergeset_size_limit >= 1
    }
}

/// Performance knobs; none of them affects consensus decisions.
#[derive(Clone, Copy, PartialEq, Eq, Structural, Debug)]
pub struct PerfParams {
    /// Bound on entries kept by each block-window cache.
    pub block_window_cache_size: usize,
}

/// A parameter set together with the node-level switches around it.
pub struct Config {
    pub params: Params,
    pub perf: PerfParams,
    pub process_genesis: bool,
    pub is_archival: bool,
    pub enable_sanity_checks: bool,
    pub utxoindex: bool,
    pub unsafe_rpc: bool,
    pub enable_unsynced_mining: bool,
}

/// The defaults `Config::new` pairs with a parameter set.
pub open spec fn spec_default_config(params: Params, perf: PerfParams) -> Config {
    Config {
        params,
        perf,
        process_genesis: true,
        is_archival: false,
        enable_sanity_checks: false,
        utxoindex: false,
        unsafe_rpc: false,
        enable_unsynced_mining: false,
    }
}

impl Config {
    /// Builds a configuration from consensus parameters with a default
    /// performance profile.
    pub fn new(params: Params) -> (r: Config)
        ensures
            r == spec_default_config(params, PerfParams { block_window_cache_size: 2048 }),
    {
        Config::with_perf(params, PerfParams { block_window_cache_size: 2048 })
    }

    /// Re-opens the configuration for further edits.
    pub fn to_builder(&self) -> (r: ConfigBuilder)
        ensures
            r.config.params.genesis_hash == self.params.genesis_hash,
            r.config.params.k_per_level@ == self.params.k_per_level@,
            r.config.params.max_block_level == self.params.max_block_level,
            r.config.params.skip_proof_of_work == self.params.skip_proof_of_work,
            r.config.perf == self.perf,
            r.config.process_genesis == self.process_genesis,
            r.config.is_archival == self.is_archival,
            r.config.enable_sanity_checks == self.enable_sanity_checks,
            r.config.utxoindex == self.utxoindex,
            r.config.unsafe_rpc == self.unsafe_rpc,
            r.config.enable_unsynced_mining == self.enable_unsynced_mining,
    {
        ConfigBuilder {
            config: Config {
                params: copy_params(&self.params),
                perf: self.perf,
                process_genesis: self.process_genesis,
                is_archival: self.is_archival,
                enable_sanity_checks: self.enable_sanity_checks,
                utxoindex: self.utxoindex,
                unsafe_rpc: self.unsafe_rpc,
                enable_unsynced_mining: self.enable_unsynced_mining,
            },
        }
    }

    /// Builds a configuration from consensus and performance parameters.
    pub fn with_perf(params: Params, perf: PerfParams) -> (r: Config)
        ensures
            r == spec_default_config(params, perf),
    {
        Config {
            params,
            perf,
            process_genesis: true,
            is_archival: false,
            enable_sanity_checks: false,
            utxoindex: false,
            unsafe_rpc: false,
            enable_unsynced_mining: false,
        }
    }
}

/// Copies a parameter set.
pub fn copy_params(p: &Params) -> (r: Params)
    ensures
        r.max_block_level == p.max_block_level,
        r.k_per_level@ == p.k_per_level@,
        r.difficulty_window_size == p.difficulty_window_size,
        r.timestamp_deviation_tolerance == p.timestamp_deviation_tolerance,
        r.target_time_per_block == p.target_time_per_block,
        r.mergeset_size_limit == p.mergeset_size_limit,
        r.max_block_parents == p.max_block_parents,
        r.genesis_hash == p.genesis_hash,
        r.genesis_bits == p.genesis_bits,
        r.genesis_timestamp == p.genesis_timestamp,
        r.skip_proof_of_work == p.skip_proof_of_work,
        p.wf() ==> r.wf(),
{
    let mut k: Vec<u16> = Vec::new();
    let n = p.k_per_level.len();
    for i in 0..n
        invariant
            n == p.k_per_level@.len(),
            k@ == p.k_per_level@.subrange(0, i as int),
    {
        k.push(p.k_per_level[i]);
        proof {
            assert(k@ =~= p.k_per_level@.subrange(0, i + 1));
        }
    }
    proof {
        assert(k@ =~= p.k_per_level@);
    }
    Params {
        max_block_level: p.max_block_level,
        k_per_level: k,
        difficulty_window_size: p.difficulty_window_size,
        timestamp_deviation_tolerance: p.timestamp_deviation_tolerance,
        target_time_per_block: p.target_time_per_block,
        mergeset_size_limit: p.mergeset_size_limit,
        max_block_parents: p.max_block_parents,
        genesis_hash: p.genesis_hash,
        genesis_bits: p.genesis_bits,
        genesis_timestamp: p.genesis_timestamp,
        skip_proof_of_work: p.skip_proof_of_work,
    }
}

/// Staged edits over a configuration.
pub struct ConfigBuilder {
    pub config: Config,
}

impl ConfigBuilder {
    pub fn new(params: Params) -> (r: ConfigBuilder)
        ensures
            r.config == spec_default_config(
                params,
                PerfParams { block_window_cache_size: 2048 },
            ),
    {
        ConfigBuilder { config: Config::new(params) }
    }

    pub fn set_perf_params(self, perf: PerfParams) -> (r: ConfigBuilder)
        ensures
            r.config == (Config { perf, ..self.config }),
    {
        let mut c = self;
        c.config.perf = perf;
        c
    }

    /// Sizes the caches after the consensus parameters: the block-window
    /// caches hold one full difficulty window.
    pub fn adjust_perf_params_to_consensus_params(self) -> (r: ConfigBuilder)
        ensures
            r.config == (Config {
                perf: PerfParams {
                    block_window_cache_size: self.config.params.difficulty_window_size,
                },
                ..self.config
            }),
    {
        let mut c = self;
        c.config.perf.block_window_cache_size = c.config.params.difficulty_window_size;
        c
    }

    pub fn skip_proof_of_work(self) -> (r: ConfigBuilder)
        ensures
            r.config == (Config {
                params: Params { skip_proof_of_work: true, ..self.config.params },
                ..self.config
            }),
    {
        let mut c = self;
        c.config.params.skip_proof_of_work = true;
        c
    }

    pub fn set_archival(self) -> (r: ConfigBuilder)
        ensures
            r.config == (Config { is_archival: true, ..self.config }),
    {
        let mut c = self;
        c.config.is_archival = true;
        c
    }

    pub fn enable_sanity_checks(self) -> (r: ConfigBuilder)
        ensures
            r.config == (Config { enable_sanity_checks: true, ..self.config }),
    {
        let mut c = self;
        c.config.enable_sanity_checks = true;
        c
    }

    pub fn skip_adding_genesis(self) -> (r: ConfigBuilder)
        ensures
            r.config == (Config { process_genesis: false, ..self.config }),
    {
        let mut c = self;
        c.config.process_genesis = false;
        c
    }

    pub fn build(self) -> (r: Config)
        ensures
            r == self.config,
    {
        self.config
    }
}

} // verus!
