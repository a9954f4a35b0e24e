//! The work handed to a batch of names computed together.
use vstd::prelude::*;

verus! {

/// A batch of names of one team.
pub struct Works {
    /// The team shared by all names.
    pub team: String,
    /// The names, one per task.
    pub names: Vec<String>,
}

} // verus!
