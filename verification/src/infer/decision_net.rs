//! Inputs of a batched decision forward.

use vstd::prelude::*;

verus! {

/// One packed question inside a batched decision forward.
pub struct BatchItem<'a> {
    /// Token ids for this question (unpadded).
    pub input_ids: &'a [u32],
    /// Absolute `[MASK]` positions within `input_ids`.
    pub markers: &'a [usize],
    /// Dense question-type id.
    pub qtype: u8,
}

} // verus!
