//! Genes: the (still embryonic) blueprint for growing organisms.

use crate::features::CellType;
use vstd::prelude::*;

verus! {

/// A single gene, which may branch into further genes (stems), forming a
/// tree whose leaves name terminal cell types.
pub struct Gene {
    pub stems: Vec<Gene>,
    pub typ: CellType,
}

impl Gene {
    /// A leaf: a gene with no stems, of the given cell type.
    pub fn leaf_node(typ: CellType) -> (r: Self)
        ensures
            r.stems@.len() == 0,
            r.typ == typ,
    {
        Self { stems: Vec::new(), typ }
    }
}

} // verus!
