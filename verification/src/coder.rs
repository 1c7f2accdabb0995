//! One coder of the chain of a block, as the end header states it.

use vstd::prelude::*;

verus! {

/// One node of a block's pipeline as the archive metadata records it.
#[derive(Clone, Debug, PartialEq, Eq)]
pub struct Coder {
    /// The method id, one to four bytes, in stored order.
    pub method_id: Vec<u8>,
    pub num_in_streams: u64,
    pub num_out_streams: u64,
    /// The property bytes; their layout depends on the method.
    pub properties: Vec<u8>,
}

impl Coder {
    /// The id bytes of the method this coder names.
    pub fn encoder_method_id(&self) -> (id: &[u8])
        ensures
            id@ == self.method_id@,
    {
        self.method_id.as_slice()
    }
}

} // verus!
