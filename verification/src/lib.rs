//! Recording and analysis of sampled value counts across a configurable integer range, with
//! configurable precision within that range ("HDR" histograms).
use vstd::prelude::*;

pub mod counter;
pub mod math;
pub mod histogram;
pub mod serialization;
pub mod iterators;
pub mod interval_log;

pub use counter::Counter;
pub use histogram::{AdditionError, CreationError, Histogram, SubtractionError};

verus! {

} // verus!
