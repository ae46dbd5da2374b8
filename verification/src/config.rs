//! The part of the configuration that the detection stage reads.

use crate::detect::sanitizer_aware::SanitizerAwareMode;
use vstd::prelude::*;

verus! {

/// The settings of the detectors, under the names of the configuration file.
#[derive(Debug, Clone, Copy)]
pub struct Config {
    pub n_plus_one_threshold: u32,
    pub window_duration_ms: u64,
    pub slow_query_threshold_ms: u64,
    pub slow_query_min_occurrences: u32,
    pub max_fanout: u32,
    pub chatty_service_min_calls: u32,
    pub pool_saturation_concurrent_threshold: u32,
    pub serialized_min_sequential: u32,
    pub sanitizer_aware_classification: SanitizerAwareMode,
}

} // verus!
