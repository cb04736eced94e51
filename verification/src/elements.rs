//! Cells' identities and the connections between them.

use vstd::prelude::*;

verus! {

/// Identifies a cell by its arena index.
pub type CellId = usize;

/// A logically undirected connection between two cells: each endpoint's
/// arena index together with the local attachment angle at that endpoint.
/// The angles are carried as bit patterns of 64-bit floats; the verified
/// core stores and moves them but never computes with them — the spring
/// integrator outside the core decodes them.
pub struct CellConnection {
    pub id_a: CellId,
    /// Attachment angle at `id_a` (bit pattern of a 64-bit float).
    pub angle_a: u64,
    pub id_b: CellId,
    /// Attachment angle at `id_b` (bit pattern of a 64-bit float).
    pub angle_b: u64,
}

impl CellConnection {
    /// Creates a new connection between two cells with the given attachment
    /// angles. A connection joins two distinct cells: `id_a != id_b`.
    pub fn new(id_a: CellId, angle_a: u64, id_b: CellId, angle_b: u64) -> (r: Self)
        requires
            id_a != id_b,
        ensures
            r.id_a == id_a,
            r.angle_a == angle_a,
            r.id_b == id_b,
            r.angle_b == angle_b,
    {
        Self { id_a, angle_a, id_b, angle_b }
    }

    /// This connection involves the given cell id.
    pub open spec fn spec_points_toward(&self, id: CellId) -> bool {
        self.id_a == id || self.id_b == id
    }

    /// Returns `true` if this connection involves the given cell id.
    pub fn points_toward(&self, id: CellId) -> (r: bool)
        ensures
            r == self.spec_points_toward(id),
    {
        self.id_a == id || self.id_b == id
    }
}

} // verus!
