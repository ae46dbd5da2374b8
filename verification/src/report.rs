//! The part of an analysis report that two runs are compared by.

use crate::detect::Finding;
use vstd::prelude::*;

verus! {

/// How many I/O operations an endpoint of a service performed.
#[derive(Debug, Clone, PartialEq, Eq)]
pub struct PerEndpointIoOps {
    pub service: String,
    pub endpoint: String,
    pub io_ops: usize,
}

/// The findings and I/O counts of one analysis run.
#[derive(Debug, Clone)]
pub struct Report {
    pub findings: Vec<Finding>,
    pub per_endpoint_io_ops: Vec<PerEndpointIoOps>,
}

} // verus!
