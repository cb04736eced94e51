//! The simulation state: all cell bodies and their connections.

use crate::data::{all_free, Heap, HeapSlot};
use crate::elements::{CellConnection, CellId};
use vstd::prelude::*;

verus! {

/// Global simulation parameters. The viscosity is carried as the bit
/// pattern of a 64-bit float; the damping pass outside the verified core
/// decodes it.
pub struct SimContext {
    /// Viscous damping coefficient (bit pattern of a 64-bit float).
    pub viscosity: u64,
}

/// The connections of `conns` that do not point toward `id`, in order.
pub open spec fn surviving(conns: Seq<CellConnection>, id: CellId) -> Seq<CellConnection>
    decreases conns.len(),
{
    if conns.len() == 0 {
        seq![]
    } else {
        let front = surviving(conns.drop_last(), id);
        if conns.last().spec_points_toward(id) {
            front
        } else {
            front.push(conns.last())
        }
    }
}

/// `surviving` distributes over concatenation.
proof fn lemma_surviving_add(a: Seq<CellConnection>, b: Seq<CellConnection>, id: CellId)
    ensures
        surviving(a + b, id) == surviving(a, id) + surviving(b, id),
    decreases b.len(),
{
    if b.len() == 0 {
        assert(a + b =~= a);
        assert(surviving(a, id) + surviving(b, id) =~= surviving(a, id));
    } else {
        lemma_surviving_add(a, b.drop_last(), id);
        assert((a + b).drop_last() =~= a + b.drop_last());
        assert((a + b).last() == b.last());
        if b.last().spec_points_toward(id) {
        } else {
            assert(surviving(a, id) + surviving(b, id) =~= (surviving(a, id) + surviving(
                b.drop_last(),
                id,
            )).push(b.last()));
        }
    }
}

/// The state of the simulation: every cell body and every connection.
/// Generic over the per-cell rigid-body payload `C`, which the host
/// defines; the core guarantees the bookkeeping whatever `C` is.
pub struct SimulationState<C> {
    pub context: SimContext,
    pub cells: Heap<C>,
    pub connections: Vec<CellConnection>,
}

impl<C> SimulationState<C> {
    /// A fresh simulation state with the given context and an initial
    /// arena of one hundred free slots.
    pub fn new(context: SimContext) -> (r: Self)
        ensures
            r.context == context,
            r.cells@.len() == 100,
            all_free(r.cells@, 0, 100),
            r.connections@.len() == 0,
    {
        Self { context, cells: Heap::with_capacity(100), connections: Vec::with_capacity(100) }
    }

    /// Removes a cell by its id: frees its arena slot and drops every
    /// connection that points toward it, so no dangling index remains in
    /// the connection list. The surviving connections are exactly those
    /// that did not involve the cell; their order may change.
    #[verifier::loop_isolation(false)]
    pub fn remove(&mut self, id: CellId)
        requires
            id < old(self).cells@.len(),
        ensures
            final(self).context == old(self).context,
            final(self).cells@ == old(self).cells@.update(id as int, HeapSlot::<C>::Free),
            forall|i: int|
                0 <= i < final(self).connections@.len() ==> !(
                #[trigger] final(self).connections@[i]).spec_points_toward(id),
            final(self).connections@.to_multiset() == surviving(
                old(self).connections@,
                id,
            ).to_multiset(),
    {
        self.cells.free(id);

        let ghost cons0 = self.connections@;
        // Sweep backward so removal by swapping never disturbs the part
        // not yet examined.
        let mut i = self.connections.len();
        proof {
            assert(self.connections@.subrange(i as int, self.connections@.len() as int)
                =~= Seq::<CellConnection>::empty());
            assert(cons0.subrange(i as int, cons0.len() as int) =~= Seq::<CellConnection>::empty());
            assert(surviving(Seq::<CellConnection>::empty(), id) =~= Seq::<CellConnection>::empty());
        }
        while i > 0
            invariant
                self.context == old(self).context,
                self.cells@ == old(self).cells@.update(id as int, HeapSlot::<C>::Free),
                i <= self.connections@.len(),
                self.connections@.len() <= cons0.len(),
                self.connections@.subrange(0, i as int) == cons0.subrange(0, i as int),
                forall|p: int|
                    i <= p < self.connections@.len() ==> !(
                    #[trigger] self.connections@[p]).spec_points_toward(id),
                self.connections@.subrange(i as int, self.connections@.len() as int).to_multiset()
                    == surviving(cons0.subrange(i as int, cons0.len() as int), id).to_multiset(),
            decreases i,
        {
            i -= 1;
            let ghost pre = self.connections@;
            let ghost lpre = pre.len() as int;
            let ghost x = pre[i as int];
            proof {
                assert(pre.subrange(0, i as int + 1)[i as int] == x);
                assert(cons0.subrange(0, i as int + 1)[i as int] == cons0[i as int]);
                assert(x == cons0[i as int]);
                assert(cons0.subrange(i as int, cons0.len() as int) =~= seq![x] + cons0.subrange(
                    i + 1,
                    cons0.len() as int,
                ));
                lemma_surviving_add(seq![x], cons0.subrange(i + 1, cons0.len() as int), id);
                assert(seq![x].drop_last() =~= Seq::<CellConnection>::empty());
                vstd::seq_lib::lemma_multiset_commutative(
                    surviving(seq![x], id),
                    surviving(cons0.subrange(i + 1, cons0.len() as int), id),
                );
            }
            if self.connections[i].points_toward(id) {
                proof {
                    assert(surviving(seq![x], id) =~= Seq::<CellConnection>::empty());
                }
                self.connections.swap_remove(i);
                proof {
                    let post = self.connections@;
                    assert(post.subrange(0, i as int) =~= cons0.subrange(0, i as int));
                    if i as int == lpre - 1 {
                        assert(post.subrange(i as int, post.len() as int)
                            =~= Seq::<CellConnection>::empty());
                        assert(pre.subrange(i + 1, lpre) =~= Seq::<CellConnection>::empty());
                    } else {
                        assert(post.subrange(i as int, post.len() as int) =~= seq![pre.last()]
                            + pre.subrange(i + 1, lpre - 1));
                        assert(pre.subrange(i + 1, lpre) =~= pre.subrange(i + 1, lpre - 1)
                            + seq![pre.last()]);
                        vstd::seq_lib::lemma_multiset_commutative(
                            seq![pre.last()],
                            pre.subrange(i + 1, lpre - 1),
                        );
                        vstd::seq_lib::lemma_multiset_commutative(
                            pre.subrange(i + 1, lpre - 1),
                            seq![pre.last()],
                        );
                    }
                }
            } else {
                proof {
                    assert(surviving(seq![x], id) =~= seq![x]);
                    assert(self.connections@.subrange(i as int, self.connections@.len() as int)
                        =~= seq![x] + self.connections@.subrange(
                        i + 1,
                        self.connections@.len() as int,
                    ));
                    vstd::seq_lib::lemma_multiset_commutative(
                        seq![x],
                        self.connections@.subrange(i + 1, self.connections@.len() as int),
                    );
                }
            }
        }
        proof {
            assert(self.connections@.subrange(0, self.connections@.len() as int)
                =~= self.connections@);
            assert(cons0.subrange(0, cons0.len() as int) =~= cons0);
        }
    }
}

} // verus!
