//! Gene records from the HGNC service.

use vstd::prelude::*;

verus! {

/// The HGNC identifier of a gene and its MANE Select RefSeq transcript.
#[derive(Debug)]
pub struct HgncBundle {
    pub hgnc_id: String,
    pub mane_select: String,
}

} // verus!
