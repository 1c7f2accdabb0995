//! Facts about chains of coders that several modules share.

use vstd::prelude::*;

use crate::archive::CoderView;
use crate::header_parse::{total_in, total_out};

verus! {

/// Coders that take one stream and give one have as many streams together as there
/// are coders.
pub proof fn lemma_simple_totals(coders: Seq<CoderView>)
    requires
        forall|i: int|
            0 <= i < coders.len() ==> (#[trigger] coders[i]).num_in_streams == 1
                && coders[i].num_out_streams == 1,
    ensures
        total_in(coders) == coders.len(),
        total_out(coders) == coders.len(),
    decreases coders.len(),
{
    if coders.len() > 0 {
        assert forall|i: int| 0 <= i < coders.drop_last().len() implies (
        #[trigger] coders.drop_last()[i]).num_in_streams == 1 && coders.drop_last()[i].num_out_streams
            == 1 by {
            assert(coders.drop_last()[i] == coders[i]);
        }
        lemma_simple_totals(coders.drop_last());
        assert(coders.last() == coders[coders.len() - 1]);
    }
}

} // verus!
