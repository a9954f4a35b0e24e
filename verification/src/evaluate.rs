//! The evaluators that score a name.
use vstd::prelude::*;

verus! {

/// The evaluator of version 2.0 (model of 10.15).
pub struct XuPing2_0_1015;

} // verus!
