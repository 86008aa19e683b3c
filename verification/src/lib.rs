//! Signal plotting core: sample times and resampling periods of the form 2^n ns, sparse
//! block trees of samples, the backend's choice of resampling periods as raw samples arrive,
//! and the position-addressed queues and index bookkeeping behind incremental decimation.
use vstd::prelude::*;

pub mod decimate;
pub mod resample;
pub mod types;

verus! {

} // verus!
