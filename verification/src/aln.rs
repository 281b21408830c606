use vstd::prelude::*;

verus! {

/// One row of an alignment: the name of a sequence and its residues and gaps, column by
/// column.
pub struct Record {
    pub name: String,
    pub seq: Vec<u8>,
}

} // verus!
