//! Connected-components grouping over the cell graph, kept in CSR
//! (compressed sparse row) form: one flattened index array plus one
//! `[start, end)` range per row.

use crate::data::IdxPair;
use vstd::prelude::*;

verus! {

/// Flattened adjacency lists or group partitions: `indices` holds the
/// entries, `indptr` the `[a, b)` range of each row.
#[derive(Debug)]
pub struct CSR {
    pub indices: Vec<usize>,
    pub indptr: Vec<IdxPair>,
}

/// Neighbor entries of node `n` contributed by the connection list, in list
/// order: each connection appends its `b` endpoint to row `a` and its `a`
/// endpoint to row `b`.
pub open spec fn row_entries(conns: Seq<IdxPair>, n: usize) -> Seq<usize>
    decreases conns.len(),
{
    if conns.len() == 0 {
        seq![]
    } else {
        let front = row_entries(conns.drop_last(), n);
        let c = conns.last();
        let with_b = if c.a == n {
            front.push(c.b)
        } else {
            front
        };
        if c.b == n {
            with_b.push(c.a)
        } else {
            with_b
        }
    }
}

/// Full adjacency row of node `n`: the node itself first (a self-reference,
/// so isolated nodes still appear), then its neighbors in connection order.
pub open spec fn adjacency_row(conns: Seq<IdxPair>, n: usize) -> Seq<usize> {
    seq![n] + row_entries(conns, n)
}

/// Sum over the nodes `0..m` of the number of neighbor entries in their rows.
pub open spec fn entries_sum(conns: Seq<IdxPair>, m: int) -> int
    decreases m,
{
    if m <= 0 {
        0
    } else {
        entries_sum(conns, m - 1) + row_entries(conns, (m - 1) as usize).len()
    }
}

/// Extending the connection list by one connection extends each row by that
/// connection's contribution.
proof fn lemma_row_entries_snoc(conns: Seq<IdxPair>, k: int, n: usize)
    requires
        0 <= k < conns.len(),
    ensures
        row_entries(conns.subrange(0, k + 1), n) == {
            let front = row_entries(conns.subrange(0, k), n);
            let c = conns[k];
            let with_b = if c.a == n {
                front.push(c.b)
            } else {
                front
            };
            if c.b == n {
                with_b.push(c.a)
            } else {
                with_b
            }
        },
{
    assert(conns.subrange(0, k + 1).drop_last() =~= conns.subrange(0, k));
    assert(conns.subrange(0, k + 1).last() == conns[k]);
}

/// Row lengths only grow as more of the connection list is taken in.
proof fn lemma_row_entries_monotone(conns: Seq<IdxPair>, k1: int, k2: int, n: usize)
    requires
        0 <= k1 <= k2 <= conns.len(),
    ensures
        row_entries(conns.subrange(0, k1), n).len() <= row_entries(conns.subrange(0, k2), n).len(),
    decreases k2 - k1,
{
    if k1 < k2 {
        lemma_row_entries_snoc(conns, k2 - 1, n);
        lemma_row_entries_monotone(conns, k1, k2 - 1, n);
    }
}

/// A full prefix is the list itself.
proof fn lemma_subrange_full(conns: Seq<IdxPair>)
    ensures
        conns.subrange(0, conns.len() as int) == conns,
{
    assert(conns.subrange(0, conns.len() as int) =~= conns);
}

/// One connection adds one entry below `m` per endpoint that lies below `m`.
proof fn lemma_entries_sum_snoc(conns: Seq<IdxPair>, m: int)
    requires
        conns.len() > 0,
        m <= usize::MAX + 1,
    ensures
        entries_sum(conns, m) == entries_sum(conns.drop_last(), m) + (if conns.last().a < m {
            1int
        } else {
            0int
        }) + (if conns.last().b < m {
            1int
        } else {
            0int
        }),
    decreases m,
{
    if m > 0 {
        lemma_entries_sum_snoc(conns, m - 1);
        let n = (m - 1) as usize;
        assert(row_entries(conns, n) == {
            let front = row_entries(conns.drop_last(), n);
            let c = conns.last();
            let with_b = if c.a == n {
                front.push(c.b)
            } else {
                front
            };
            if c.b == n {
                with_b.push(c.a)
            } else {
                with_b
            }
        });
    }
}

/// With every endpoint below `m`, the rows below `m` hold two entries per
/// connection in total.
proof fn lemma_entries_sum_total(conns: Seq<IdxPair>, m: int)
    requires
        m <= usize::MAX + 1,
        forall|k: int| 0 <= k < conns.len() ==> (#[trigger] conns[k]).a < m && conns[k].b < m,
    ensures
        entries_sum(conns, m) == 2 * conns.len(),
    decreases conns.len(),
{
    if conns.len() == 0 {
        lemma_entries_sum_empty(conns, m);
    } else {
        lemma_entries_sum_snoc(conns, m);
        assert(forall|k: int|
            0 <= k < conns.drop_last().len() ==> (#[trigger] conns.drop_last()[k]).a < m
                && conns.drop_last()[k].b < m);
        lemma_entries_sum_total(conns.drop_last(), m);
    }
}

/// Prefixes of the node range contribute no more entries than the full range.
proof fn lemma_entries_sum_monotone(conns: Seq<IdxPair>, m1: int, m2: int)
    requires
        m1 <= m2,
    ensures
        entries_sum(conns, m1) <= entries_sum(conns, m2),
    decreases m2 - m1,
{
    if m1 < m2 {
        lemma_entries_sum_monotone(conns, m1, m2 - 1);
    }
}

/// A row never holds more than two entries per connection.
proof fn lemma_row_entries_len_bound(conns: Seq<IdxPair>, n: usize)
    ensures
        row_entries(conns, n).len() <= 2 * conns.len(),
    decreases conns.len(),
{
    if conns.len() > 0 {
        lemma_row_entries_len_bound(conns.drop_last(), n);
    }
}

impl CSR {
    /// The entries of row `n`, as a sequence.
    pub open spec fn spec_row(&self, n: int) -> Seq<usize> {
        self.indices@.subrange(self.indptr@[n].a as int, self.indptr@[n].b as int)
    }

    /// The rows tile `indices`: ranges are ordered, in bounds, consecutive,
    /// and start at 0.
    pub open spec fn wf(&self) -> bool {
        &&& forall|n: int|
            0 <= n < self.indptr@.len() ==> (#[trigger] self.indptr@[n]).a <= self.indptr@[n].b
                <= self.indices@.len()
        &&& forall|n: int|
            0 <= n < self.indptr@.len() - 1 ==> (#[trigger] self.indptr@[n]).b == self.indptr@[
                n + 1
            ].a
        &&& (self.indptr@.len() > 0 ==> self.indptr@[0].a == 0 && self.indptr@[
            self.indptr@.len() - 1
        ].b == self.indices@.len())
    }

    /// Builds the adjacency lists (including a self-reference per node, so
    /// every isolated node still appears) from the connection list.
    #[verifier::rlimit(100)]
    #[verifier::spinoff_prover]
    pub fn adjacent_from_connections(connections: &[IdxPair], max_index: usize) -> (r: Self)
        requires
            max_index < usize::MAX,
            max_index + 1 + 2 * connections@.len() <= usize::MAX,
            forall|k: int|
                0 <= k < connections@.len() ==> (#[trigger] connections@[k]).a <= max_index
                    && connections@[k].b <= max_index,
        ensures
            r.wf(),
            r.indptr@.len() == max_index + 1,
            forall|n: int|
                0 <= n <= max_index ==> r.spec_row(n) == adjacency_row(connections@, n as usize),
    {
        let degrees = build_degrees(connections, max_index);
        let indptr = build_indptr(&degrees, connections, max_index);
        let total = indptr[max_index].b;
        let indices = fill_rows(connections, &indptr, max_index, total);
        CSR { indices, indptr }
    }
}

/// Row lengths per node: one for the self-reference plus one entry per
/// incidence in the connection list.
#[verifier::loop_isolation(false)]
fn build_degrees(connections: &[IdxPair], max_index: usize) -> (degrees: Vec<usize>)
    requires
        max_index < usize::MAX,
        max_index + 1 + 2 * connections@.len() <= usize::MAX,
        forall|k: int|
            0 <= k < connections@.len() ==> (#[trigger] connections@[k]).a <= max_index
                && connections@[k].b <= max_index,
    ensures
        degrees@.len() == max_index + 1,
        forall|t: int|
            0 <= t < degrees@.len() ==> degrees@[t] == adjacency_row(
                connections@,
                t as usize,
            ).len(),
{
    let node_count = max_index + 1;
    let m = connections.len();
    let ghost cs = connections@;
    proof {
        lemma_subrange_full(cs);
    }
        // Degrees start at 1 to account for the self-reference.
        let mut degrees: Vec<usize> = Vec::new();
        let mut n: usize = 0;
        while n < node_count
            invariant
                n <= node_count,
                degrees@.len() == n,
                forall|t: int|
                    0 <= t < n ==> degrees@[t] == adjacency_row(cs.subrange(0, 0), t as usize).len(),
            decreases node_count - n,
        {
            proof {
                assert(cs.subrange(0, 0) =~= Seq::<IdxPair>::empty());
            }
            degrees.push(1);
            n += 1;
        }
        let mut k: usize = 0;
        while k < m
            invariant
                k <= m,
                degrees@.len() == node_count,
                forall|t: int|
                    0 <= t < node_count ==> degrees@[t] == adjacency_row(
                        cs.subrange(0, k as int),
                        t as usize,
                    ).len(),
            decreases m - k,
        {
            proof {
                assert forall|t: usize| t < node_count implies (#[trigger] adjacency_row(
                    cs.subrange(0, k as int),
                    t,
                )).len() <= 1 + 2 * k by {
                    lemma_row_entries_len_bound(cs.subrange(0, k as int), t);
                }
                assert forall|t: usize| t < node_count implies (#[trigger] adjacency_row(
                    cs.subrange(0, k + 1),
                    t,
                )).len() == adjacency_row(cs.subrange(0, k as int), t).len() + (
                if cs[k as int].a == t {
                    1int
                } else {
                    0int
                }) + (if cs[k as int].b == t {
                    1int
                } else {
                    0int
                }) by {
                    lemma_row_entries_snoc(cs, k as int, t);
                }
            }
            let ca = connections[k].a;
            let cb = connections[k].b;
            let da = degrees[ca];
            degrees[ca] = da + 1;
            let db = degrees[cb];
            degrees[cb] = db + 1;
            k += 1;
        }
    degrees
}

/// One `[start, end)` range per node, packed end to end in node order.
#[verifier::loop_isolation(false)]
fn build_indptr(degrees: &Vec<usize>, connections: &[IdxPair], max_index: usize) -> (indptr: Vec<
    IdxPair,
>)
    requires
        max_index < usize::MAX,
        max_index + 1 + 2 * connections@.len() <= usize::MAX,
        forall|k: int|
            0 <= k < connections@.len() ==> (#[trigger] connections@[k]).a <= max_index
                && connections@[k].b <= max_index,
        degrees@.len() == max_index + 1,
        forall|t: int|
            0 <= t < degrees@.len() ==> degrees@[t] == adjacency_row(
                connections@,
                t as usize,
            ).len(),
    ensures
        indptr@.len() == max_index + 1,
        forall|t: int|
            0 <= t < indptr@.len() ==> (#[trigger] indptr@[t]).a + adjacency_row(
                connections@,
                t as usize,
            ).len() == indptr@[t].b,
        forall|t: int|
            0 <= t < indptr@.len() - 1 ==> (#[trigger] indptr@[t]).b == indptr@[t + 1].a,
        forall|t1: int, t2: int|
            0 <= t1 < t2 < indptr@.len() ==> (#[trigger] indptr@[t1]).b <= (
            #[trigger] indptr@[t2]).a,
        indptr@[0].a == 0,
        indptr@[max_index as int].b == max_index + 1 + 2 * connections@.len(),
        forall|t: int|
            0 <= t < indptr@.len() ==> (#[trigger] indptr@[t]).b <= max_index + 1 + 2
                * connections@.len(),
{
    let node_count = max_index + 1;
    let ghost cs = connections@;
    proof {
        lemma_subrange_full(cs);
        lemma_entries_sum_total(cs, node_count as int);
    }
        let mut indptr: Vec<IdxPair> = Vec::new();
        let mut offset: usize = 0;
        let mut n: usize = 0;
        while n < node_count
            invariant
                n <= node_count,
                indptr@.len() == n,
                offset == n + entries_sum(cs, n as int),
                forall|t: int|
                    0 <= t < n ==> (#[trigger] indptr@[t]).a + adjacency_row(cs, t as usize).len()
                        == indptr@[t].b,
                forall|t: int| 0 <= t < n ==> (#[trigger] indptr@[t]).b <= offset,
                forall|t: int| 0 <= t < n - 1 ==> (#[trigger] indptr@[t]).b == indptr@[t + 1].a,
                forall|t1: int, t2: int|
                    0 <= t1 < t2 < n ==> (#[trigger] indptr@[t1]).b <= (#[trigger] indptr@[t2]).a,
                n > 0 ==> indptr@[0].a == 0 && indptr@[n - 1].b == offset,
            decreases node_count - n,
        {
            proof {
                lemma_entries_sum_monotone(cs, n + 1, node_count as int);
                lemma_entries_sum_total(cs, node_count as int);
            }
            let deg = degrees[n];
            indptr.push(IdxPair::new(offset, offset + deg));
            offset = offset + deg;
            n += 1;
        }
    indptr
}

/// Write each row: the node's own index first, then its neighbors in the
/// order the connections list them.
#[verifier::loop_isolation(false)]
#[verifier::rlimit(100)]
fn fill_rows(connections: &[IdxPair], indptr: &Vec<IdxPair>, max_index: usize, total: usize) -> (indices: Vec<usize>)
    requires
        max_index < usize::MAX,
        max_index + 1 + 2 * connections@.len() <= usize::MAX,
        forall|k: int|
            0 <= k < connections@.len() ==> (#[trigger] connections@[k]).a <= max_index
                && connections@[k].b <= max_index,
        indptr@.len() == max_index + 1,
        forall|t: int|
            0 <= t < indptr@.len() ==> (#[trigger] indptr@[t]).a + adjacency_row(
                connections@,
                t as usize,
            ).len() == indptr@[t].b,
        forall|t1: int, t2: int|
            0 <= t1 < t2 < indptr@.len() ==> (#[trigger] indptr@[t1]).b <= (
            #[trigger] indptr@[t2]).a,
        forall|t: int| 0 <= t < indptr@.len() ==> (#[trigger] indptr@[t]).b <= total,
    ensures
        indices@.len() == total,
        forall|t: int|
            0 <= t <= max_index ==> indices@.subrange(
                (#[trigger] indptr@[t]).a as int,
                indptr@[t].b as int,
            ) == adjacency_row(connections@, t as usize),
{
    let node_count = max_index + 1;
    let m = connections.len();
    let ghost cs = connections@;
    proof {
        lemma_subrange_full(cs);
    }
        // Fill the rows: self-reference first, then neighbors in list order.
        let mut indices: Vec<usize> = Vec::new();
        let mut i: usize = 0;
        while i < total
            invariant
                i <= total,
                indices@.len() == i,
            decreases total - i,
        {
            indices.push(0);
            i += 1;
        }
        let mut write_pos: Vec<usize> = Vec::new();
        let mut n: usize = 0;
        while n < node_count
            invariant
                n <= node_count,
                write_pos@.len() == n,
                forall|t: int| 0 <= t < n ==> write_pos@[t] == (#[trigger] indptr@[t]).a,
            decreases node_count - n,
        {
            write_pos.push(indptr[n].a);
            n += 1;
        }

        let mut n: usize = 0;
        while n < node_count
            invariant
                n <= node_count,
                indices@.len() == total,
                write_pos@.len() == node_count,
                forall|t: int|
                    0 <= t < n ==> write_pos@[t] == (#[trigger] indptr@[t]).a + 1,
                forall|t: int|
                    n <= t < node_count ==> write_pos@[t] == (#[trigger] indptr@[t]).a,
                forall|t: int|
                    0 <= t < n ==> indices@.subrange(
                        (#[trigger] indptr@[t]).a as int,
                        write_pos@[t] as int,
                    ) == adjacency_row(cs.subrange(0, 0), t as usize),
            decreases node_count - n,
        {
            proof {
                assert(cs.subrange(0, 0) =~= Seq::<IdxPair>::empty());
            }
            let ghost idx0 = indices@;
            let wp = write_pos[n];
            proof {
                assert(indptr@[n as int].a + adjacency_row(cs, n as usize).len() == indptr@[
                    n as int
                ].b);
                assert(adjacency_row(cs, n as usize).len() >= 1);
                assert(wp < indptr@[n as int].b);
            }
            indices[wp] = n;
            write_pos[n] = wp + 1;
            proof {
                assert forall|t: int| 0 <= t < n implies indices@.subrange(
                    (#[trigger] indptr@[t]).a as int,
                    write_pos@[t] as int,
                ) == adjacency_row(cs.subrange(0, 0), t as usize) by {
                    assert(indices@.subrange(indptr@[t].a as int, write_pos@[t] as int)
                        =~= idx0.subrange(indptr@[t].a as int, write_pos@[t] as int));
                }
                assert(indices@.subrange(indptr@[n as int].a as int, wp + 1) =~= seq![n]
                    + row_entries(cs.subrange(0, 0), n));
            }
            n += 1;
        }

        let mut k: usize = 0;
        while k < m
            invariant
                k <= m,
                indices@.len() == total,
                write_pos@.len() == node_count,
                forall|t: int|
                    0 <= t < node_count ==> write_pos@[t] == (#[trigger] indptr@[t]).a
                        + adjacency_row(cs.subrange(0, k as int), t as usize).len(),
                forall|t: int|
                    0 <= t < node_count ==> indices@.subrange(
                        (#[trigger] indptr@[t]).a as int,
                        write_pos@[t] as int,
                    ) == adjacency_row(cs.subrange(0, k as int), t as usize),
            decreases m - k,
        {
            let ghost cs_pre = cs.subrange(0, k as int);
            let ghost cs_post = cs.subrange(0, k + 1);
            proof {
                assert forall|t: usize| t < node_count implies (#[trigger] adjacency_row(
                    cs_post,
                    t,
                )).len() <= adjacency_row(cs, t).len() by {
                    lemma_row_entries_monotone(cs, k + 1, m as int, t);
                }
                assert forall|t: usize| t < node_count implies #[trigger] adjacency_row(cs_post, t)
                    == {
                    let front = adjacency_row(cs_pre, t);
                    let c = cs[k as int];
                    let with_b = if c.a == t {
                        front.push(c.b)
                    } else {
                        front
                    };
                    if c.b == t {
                        with_b.push(c.a)
                    } else {
                        with_b
                    }
                } by {
                    lemma_row_entries_snoc(cs, k as int, t);
                    assert(adjacency_row(cs_post, t) =~= {
                        let front = adjacency_row(cs_pre, t);
                        let c = cs[k as int];
                        let with_b = if c.a == t {
                            front.push(c.b)
                        } else {
                            front
                        };
                        if c.b == t {
                            with_b.push(c.a)
                        } else {
                            with_b
                        }
                    });
                }
            }
            let ghost idx0 = indices@;
            let ghost wp0 = write_pos@;
            let ca = connections[k].a;
            let cb = connections[k].b;
            let wpa = write_pos[ca];
            proof {
                assert(adjacency_row(cs_post, ca as usize).len() >= adjacency_row(
                    cs_pre,
                    ca as usize,
                ).len() + 1);
                assert(wpa < indptr@[ca as int].b);
            }
            indices[wpa] = cb;
            write_pos[ca] = wpa + 1;
            let wpb = write_pos[cb];
            proof {
                if cb == ca {
                    assert(adjacency_row(cs_post, cb as usize).len() == adjacency_row(
                        cs_pre,
                        cb as usize,
                    ).len() + 2);
                } else {
                    assert(adjacency_row(cs_post, cb as usize).len() >= adjacency_row(
                        cs_pre,
                        cb as usize,
                    ).len() + 1);
                }
                assert(wpb < indptr@[cb as int].b);
            }
            indices[wpb] = ca;
            write_pos[cb] = wpb + 1;
            proof {
                assert forall|t: int| 0 <= t < node_count implies indices@.subrange(
                    (#[trigger] indptr@[t]).a as int,
                    write_pos@[t] as int,
                ) == adjacency_row(cs_post, t as usize) by {
                    if t == ca && t == cb {
                        assert(indices@.subrange(indptr@[t].a as int, write_pos@[t] as int)
                            =~= adjacency_row(cs_pre, t as usize).push(cb).push(ca));
                    } else if t == ca {
                        if ca < cb {
                            assert(indptr@[ca as int].b <= indptr@[cb as int].a);
                        } else {
                            assert(indptr@[cb as int].b <= indptr@[ca as int].a);
                        }
                        assert(indices@.subrange(indptr@[t].a as int, write_pos@[t] as int)
                            =~= adjacency_row(cs_pre, t as usize).push(cb));
                    } else if t == cb {
                        if ca < cb {
                            assert(indptr@[ca as int].b <= indptr@[cb as int].a);
                        } else {
                            assert(indptr@[cb as int].b <= indptr@[ca as int].a);
                        }
                        assert(indices@.subrange(indptr@[t].a as int, write_pos@[t] as int)
                            =~= adjacency_row(cs_pre, t as usize).push(ca));
                    } else {
                        assert(adjacency_row(cs_post, t as usize).len() >= adjacency_row(
                            cs_pre,
                            t as usize,
                        ).len());
                        assert(wp0[t] <= indptr@[t].b);
                        if t < ca as int {
                            assert(indptr@[t].b <= indptr@[ca as int].a);
                        } else {
                            assert(indptr@[ca as int].b <= indptr@[t].a);
                        }
                        if t < cb as int {
                            assert(indptr@[t].b <= indptr@[cb as int].a);
                        } else {
                            assert(indptr@[cb as int].b <= indptr@[t].a);
                        }
                        assert(indices@.subrange(indptr@[t].a as int, write_pos@[t] as int)
                            =~= idx0.subrange(indptr@[t].a as int, wp0[t] as int));
                    }
                }
            }
            k += 1;
        }
        proof {
            assert forall|n2: int| 0 <= n2 <= max_index implies indices@.subrange(
                (#[trigger] indptr@[n2]).a as int,
                indptr@[n2].b as int,
            ) == adjacency_row(cs, n2 as usize) by {
                assert(write_pos@[n2] == indptr@[n2].b);
            }
        }
    indices
}

/// Nodes `u` and `v` are the two endpoints of some connection.
pub open spec fn edge(conns: Seq<IdxPair>, u: usize, v: usize) -> bool {
    exists|k: int|
        0 <= k < conns.len() && ((#[trigger] conns[k]).a == u && conns[k].b == v || conns[k].a == v
            && conns[k].b == u)
}

/// `p` is a walk from `u` to `v`: consecutive entries are joined by a
/// connection.
pub open spec fn is_path(conns: Seq<IdxPair>, p: Seq<usize>, u: usize, v: usize) -> bool {
    &&& p.len() > 0
    &&& p[0] == u
    &&& p.last() == v
    &&& forall|i: int| 0 <= i < p.len() - 1 ==> edge(conns, p[i], #[trigger] p[i + 1])
}

/// Nodes `u` and `v` lie in the same connected component of the graph the
/// connection list spans.
pub open spec fn connected(conns: Seq<IdxPair>, u: usize, v: usize) -> bool {
    exists|p: Seq<usize>| is_path(conns, p, u, v)
}

/// Connectivity is reflexive.
pub proof fn lemma_connected_refl(conns: Seq<IdxPair>, u: usize)
    ensures
        connected(conns, u, u),
{
    assert(is_path(conns, seq![u], u, u));
}

/// One more connection extends a connected chain.
pub proof fn lemma_connected_step(conns: Seq<IdxPair>, u: usize, w: usize, v: usize)
    requires
        connected(conns, u, w),
        edge(conns, w, v),
    ensures
        connected(conns, u, v),
{
    let p = choose|p: Seq<usize>| is_path(conns, p, u, w);
    let p2 = p.push(v);
    assert forall|i: int| 0 <= i < p2.len() - 1 implies edge(conns, p2[i], #[trigger] p2[i + 1]) by {
        if i < p.len() - 1 {
            assert(edge(conns, p[i], p[i + 1]));
        } else {
            assert(p2[i] == w && p2[i + 1] == v);
        }
    }
    assert(is_path(conns, p2, u, v));
}

/// Walks can be concatenated: connectivity is transitive.
pub proof fn lemma_connected_trans(conns: Seq<IdxPair>, u: usize, v: usize, w: usize)
    requires
        connected(conns, u, v),
        connected(conns, v, w),
    ensures
        connected(conns, u, w),
{
    let p1 = choose|p: Seq<usize>| is_path(conns, p, u, v);
    let p2 = choose|p: Seq<usize>| is_path(conns, p, v, w);
    let p3 = p1 + p2.subrange(1, p2.len() as int);
    assert(p3[0] == u);
    assert(p3.last() == if p2.len() == 1 {
        p1.last()
    } else {
        p2.last()
    });
    assert forall|i: int| 0 <= i < p3.len() - 1 implies edge(conns, p3[i], #[trigger] p3[i + 1]) by {
        if i < p1.len() - 1 {
            assert(edge(conns, p1[i], p1[i + 1]));
        } else if i == p1.len() - 1 {
            let z: int = 0;
            assert(p3[i] == v && p3[i + 1] == p2[1]);
            assert(edge(conns, p2[z], p2[z + 1]));
        } else {
            let j = i - p1.len();
            assert(p3[i] == p2[j + 1] && p3[i + 1] == p2[j + 2]);
            assert(edge(conns, p2[j + 1], p2[j + 1 + 1]));
        }
    }
    assert(is_path(conns, p3, u, w));
}

/// Walks can be reversed: connectivity is symmetric.
pub proof fn lemma_connected_sym(conns: Seq<IdxPair>, u: usize, v: usize)
    requires
        connected(conns, u, v),
    ensures
        connected(conns, v, u),
{
    let p = choose|p: Seq<usize>| is_path(conns, p, u, v);
    let n = p.len() as int;
    let p2 = Seq::new(p.len(), |i: int| p[n - 1 - i]);
    assert(p2[0] == v);
    assert(p2.last() == u);
    assert forall|i: int| 0 <= i < p2.len() - 1 implies edge(conns, p2[i], #[trigger] p2[i + 1]) by {
        let j = n - 2 - i;
        assert(edge(conns, p[j], p[j + 1]));
        assert(p2[i] == p[j + 1] && p2[i + 1] == p[j]);
    }
    assert(is_path(conns, p2, v, u));
}

/// One breadth-first discovery step: appends to `idx` each entry of `row`,
/// in row order, that `idx` does not already hold. The output array doubles
/// as the visited set and as the FIFO queue.
pub open spec fn discover(idx: Seq<usize>, row: Seq<usize>) -> Seq<usize>
    decreases row.len(),
{
    if row.len() == 0 {
        idx
    } else {
        let idx2 = if idx.contains(row[0]) {
            idx
        } else {
            idx.push(row[0])
        };
        discover(idx2, row.drop_first())
    }
}

/// Breadth-first expansion from queue position `head`: each entry from
/// `head` on has its adjacency row discovered in turn. `node_count` bounds
/// the walk; the queue never outgrows it, since its entries are distinct
/// node ids below it.
pub open spec fn bfs_sweep(conns: Seq<IdxPair>, node_count: int, idx: Seq<usize>, head: int) -> Seq<
    usize,
>
    decreases node_count - head,
{
    if head >= idx.len() || head >= node_count {
        idx
    } else {
        bfs_sweep(conns, node_count, discover(idx, adjacency_row(conns, idx[head])), head + 1)
    }
}

/// The full grouping sweep from start node `s` upward: a node not yet
/// placed opens a new group whose members are its breadth-first expansion.
/// This pins the output of `groups_from_connections` down to the value: the
/// grouping depends on nothing but the connection list and the node range.
pub open spec fn sweep_groups(
    conns: Seq<IdxPair>,
    node_count: int,
    s: int,
    idx: Seq<usize>,
    ptr: Seq<IdxPair>,
) -> (Seq<usize>, Seq<IdxPair>)
    decreases node_count - s,
{
    if s >= node_count {
        (idx, ptr)
    } else if idx.contains(s as usize) {
        sweep_groups(conns, node_count, s + 1, idx, ptr)
    } else {
        let idx2 = bfs_sweep(conns, node_count, idx.push(s as usize), idx.len() as int);
        sweep_groups(
            conns,
            node_count,
            s + 1,
            idx2,
            ptr.push(IdxPair { a: idx.len() as usize, b: idx2.len() as usize }),
        )
    }
}

/// Discovering one more row entry extends the discovered array by that
/// entry's contribution.
proof fn lemma_discover_snoc(idx: Seq<usize>, row: Seq<usize>, j: int)
    requires
        0 <= j < row.len(),
    ensures
        discover(idx, row.subrange(0, j + 1)) == {
            let d = discover(idx, row.subrange(0, j));
            if d.contains(row[j]) {
                d
            } else {
                d.push(row[j])
            }
        },
    decreases j,
{
    let idx2 = if idx.contains(row[0]) {
        idx
    } else {
        idx.push(row[0])
    };
    if j == 0 {
        assert(row.subrange(0, 1)[0] == row[0]);
        assert(row.subrange(0, 1).drop_first() =~= Seq::<usize>::empty());
        assert(row.subrange(0, 0) =~= Seq::<usize>::empty());
        assert(discover(idx2, Seq::<usize>::empty()) == idx2);
        assert(discover(idx, row.subrange(0, 1)) == idx2);
        assert(discover(idx, row.subrange(0, 0)) == idx);
    } else {
        let rdf = row.drop_first();
        assert(row.subrange(0, j + 1)[0] == row[0]);
        assert(row.subrange(0, j)[0] == row[0]);
        assert(row.subrange(0, j + 1).drop_first() =~= rdf.subrange(0, j));
        assert(row.subrange(0, j).drop_first() =~= rdf.subrange(0, j - 1));
        assert(discover(idx, row.subrange(0, j + 1)) == discover(idx2, rdf.subrange(0, j)));
        assert(discover(idx, row.subrange(0, j)) == discover(idx2, rdf.subrange(0, j - 1)));
        lemma_discover_snoc(idx2, rdf, j - 1);
        assert(rdf.subrange(0, (j - 1) + 1) == rdf.subrange(0, j));
        assert(rdf[j - 1] == row[j]);
    }
}

impl CSR {
    /// Computes the connected groups of the cell graph by breadth-first
    /// search: one row per component, and the rows tile `indices`. Sweeping
    /// start nodes from 0 upward makes the output deterministic — the
    /// contract pins it to the value of `sweep_groups`: each row's first
    /// entry is its component's smallest node, rows are ordered by those
    /// entries, and within a row members appear in breadth-first discovery
    /// order. Every node of `0..=max_index` appears in exactly one row.
    #[verifier::loop_isolation(false)]
    #[verifier::rlimit(100)]
    #[verifier::spinoff_prover]
    pub fn groups_from_connections(connections: &[IdxPair], max_index: usize) -> (r: Self)
        requires
            max_index < usize::MAX,
            max_index + 1 + 2 * connections@.len() <= usize::MAX,
            forall|k: int|
                0 <= k < connections@.len() ==> (#[trigger] connections@[k]).a <= max_index
                    && connections@[k].b <= max_index,
        ensures
            r.wf(),
            r.indices@ == sweep_groups(
                connections@,
                max_index + 1,
                0,
                Seq::<usize>::empty(),
                Seq::<IdxPair>::empty(),
            ).0,
            r.indptr@ == sweep_groups(
                connections@,
                max_index + 1,
                0,
                Seq::<usize>::empty(),
                Seq::<IdxPair>::empty(),
            ).1,
            r.indices@.len() == max_index + 1,
            r.indptr@.len() > 0,
            r.indptr@[0].a == 0,
            r.indptr@[r.indptr@.len() - 1].b == r.indices@.len(),
            forall|p: int| 0 <= p < r.indices@.len() ==> (#[trigger] r.indices@[p]) <= max_index,
            forall|p1: int, p2: int|
                0 <= p1 < p2 < r.indices@.len() ==> r.indices@[p1] != r.indices@[p2],
            forall|v: int| 0 <= v <= max_index ==> #[trigger] r.indices@.contains(v as usize),
            forall|g: int|
                0 <= g < r.indptr@.len() ==> (#[trigger] r.indptr@[g]).a < r.indptr@[g].b,
            forall|g: int, p: int|
                0 <= g < r.indptr@.len() && (#[trigger] r.indptr@[g]).a <= p < r.indptr@[g].b
                    ==> r.indices@[r.indptr@[g].a as int] <= (#[trigger] r.indices@[p]),
            forall|g1: int, g2: int|
                0 <= g1 < g2 < r.indptr@.len() ==> r.indices@[(#[trigger] r.indptr@[g1]).a as int]
                    < r.indices@[(#[trigger] r.indptr@[g2]).a as int],
            forall|g: int, p1: int, p2: int|
                0 <= g < r.indptr@.len() && (#[trigger] r.indptr@[g]).a <= p1 < r.indptr@[g].b
                    && r.indptr@[g].a <= p2 < r.indptr@[g].b ==> connected(
                    connections@,
                    #[trigger] r.indices@[p1],
                    #[trigger] r.indices@[p2],
                ),
            forall|g1: int, g2: int, p1: int, p2: int|
                0 <= g1 < r.indptr@.len() && 0 <= g2 < r.indptr@.len() && (
                #[trigger] r.indptr@[g1]).a <= p1 < r.indptr@[g1].b && (
                #[trigger] r.indptr@[g2]).a <= p2 < r.indptr@[g2].b && connected(
                    connections@,
                    #[trigger] r.indices@[p1],
                    #[trigger] r.indices@[p2],
                ) ==> g1 == g2,
    {
        let node_count = max_index + 1;
        let ghost cs = connections@;
        let ghost ncI = node_count as int;
        let adj = CSR::adjacent_from_connections(connections, max_index);
        let mut visited: Vec<bool> = Vec::new();
        let mut i: usize = 0;
        while i < node_count
            invariant
                i <= node_count,
                visited@.len() == i,
                forall|v: int| 0 <= v < i ==> !(#[trigger] visited@[v]),
            decreases node_count - i,
        {
            visited.push(false);
            i += 1;
        }
        let mut indices: Vec<usize> = Vec::new();
        let mut indptr: Vec<IdxPair> = Vec::new();
        let mut s: usize = 0;
        while s < node_count
            invariant
                s <= node_count,
                visited@.len() == node_count,
                indices@.len() <= node_count,
                forall|p: int| 0 <= p < indices@.len() ==> (#[trigger] indices@[p]) <= max_index,
                forall|p1: int, p2: int|
                    0 <= p1 < p2 < indices@.len() ==> indices@[p1] != indices@[p2],
                forall|v: usize|
                    v < node_count ==> ((#[trigger] visited@[v as int]) <==> indices@.contains(v)),
                forall|v: int| 0 <= v < s ==> (#[trigger] visited@[v]),
                indptr@.len() == 0 ==> indices@.len() == 0,
                indptr@.len() > 0 ==> indptr@[0].a == 0 && indptr@[indptr@.len() - 1].b
                    == indices@.len(),
                forall|g: int|
                    0 <= g < indptr@.len() ==> (#[trigger] indptr@[g]).a < indptr@[g].b
                        <= indices@.len(),
                forall|g: int|
                    0 <= g < indptr@.len() - 1 ==> (#[trigger] indptr@[g]).b == indptr@[g + 1].a,
                forall|g1: int, g2: int|
                    0 <= g1 < g2 < indptr@.len() ==> (#[trigger] indptr@[g1]).b <= (
                    #[trigger] indptr@[g2]).a,
                forall|g: int, p: int|
                    0 <= g < indptr@.len() && (#[trigger] indptr@[g]).a <= p < indptr@[g].b
                        ==> connected(cs, indices@[indptr@[g].a as int], #[trigger] indices@[p]),
                forall|g: int, p: int|
                    0 <= g < indptr@.len() && (#[trigger] indptr@[g]).a <= p < indptr@[g].b
                        ==> indices@[indptr@[g].a as int] <= (#[trigger] indices@[p]),
                forall|g: int|
                    0 <= g < indptr@.len() ==> (#[trigger] indices@[indptr@[g].a as int]) < s,
                forall|g1: int, g2: int|
                    0 <= g1 < g2 < indptr@.len() ==> indices@[(#[trigger] indptr@[g1]).a as int]
                        < indices@[(#[trigger] indptr@[g2]).a as int],
                groups_closed(indices@, indptr@, cs),
                sweep_groups(cs, ncI, 0, Seq::<usize>::empty(), Seq::<IdxPair>::empty())
                    == sweep_groups(cs, ncI, s as int, indices@, indptr@),
            decreases node_count - s,
        {
            let ghost idx_b = indices@;
            let ghost ptr_b = indptr@;
            if !visited[s] {
                explore_group(&adj, connections, &mut visited, &mut indices, &mut indptr, s, max_index);
                proof {
                    assert(((s as int) as usize) == s);
                    assert(!idx_b.contains(s));
                    assert(sweep_groups(cs, ncI, s as int, idx_b, ptr_b) == sweep_groups(
                        cs,
                        ncI,
                        s as int + 1,
                        indices@,
                        indptr@,
                    ));
                }
            } else {
                proof {
                    assert(((s as int) as usize) == s);
                    assert(idx_b.contains(s));
                    assert(sweep_groups(cs, ncI, s as int, idx_b, ptr_b) == sweep_groups(
                        cs,
                        ncI,
                        s as int + 1,
                        indices@,
                        indptr@,
                    ));
                }
            }
            s += 1;
        }
        proof {
            assert forall|v: int| 0 <= v < node_count implies #[trigger] indices@.contains(
                v as usize,
            ) by {
                assert(visited@[v]);
            }
            lemma_distinct_bounded_full(indices@, node_count as int);
        }
        let r = CSR { indices, indptr };
        proof {
            lemma_groups_pairwise_connected(r.indices@, r.indptr@, cs);
            lemma_groups_unique(r.indices@, r.indptr@, cs);
        }
        r
    }
}


/// One breadth-first expansion: starting from the single freshly-visited
/// node `s` already placed at position `gs`, appends every node reachable
/// from it that was not yet visited, in discovery order.
#[verifier::loop_isolation(false)]
#[verifier::rlimit(100)]
#[verifier::spinoff_prover]
fn bfs_expand(
    adj: &CSR,
    connections: &[IdxPair],
    visited: &mut Vec<bool>,
    indices: &mut Vec<usize>,
    s: usize,
    gs: usize,
    max_index: usize,
)
    requires
        max_index < usize::MAX,
        forall|k: int|
            0 <= k < connections@.len() ==> (#[trigger] connections@[k]).a <= max_index
                && connections@[k].b <= max_index,
        adj.wf(),
        adj.indptr@.len() == max_index + 1,
        forall|n: int|
            0 <= n <= max_index ==> adj.spec_row(n) == adjacency_row(connections@, n as usize),
        old(visited)@.len() == max_index + 1,
        old(indices)@.len() == gs + 1,
        gs + 1 <= max_index + 1,
        old(indices)@[gs as int] == s,
        forall|p: int| 0 <= p < old(indices)@.len() ==> (#[trigger] old(indices)@[p]) <= max_index,
        forall|p1: int, p2: int|
            0 <= p1 < p2 < old(indices)@.len() ==> old(indices)@[p1] != old(indices)@[p2],
        forall|v: usize|
            v < max_index + 1 ==> ((#[trigger] old(visited)@[v as int]) <==> old(
                indices)@.contains(v)),
        forall|v: int| 0 <= v < s ==> (#[trigger] old(visited)@[v]),
        connected(connections@, s, s),
    ensures
        final(visited)@.len() == max_index + 1,
        gs < final(indices)@.len() <= max_index + 1,
        final(indices)@.subrange(0, (gs + 1) as int) == old(indices)@,
        final(indices)@[gs as int] == s,
        forall|p: int|
            0 <= p < final(indices)@.len() ==> (#[trigger] final(indices)@[p]) <= max_index,
        forall|p1: int, p2: int|
            0 <= p1 < p2 < final(indices)@.len() ==> final(indices)@[p1] != final(indices)@[p2],
        forall|v: usize|
            v < max_index + 1 ==> ((#[trigger] final(visited)@[v as int]) <==> final(
                indices)@.contains(v)),
        forall|v: int| 0 <= v < old(visited)@.len() && old(visited)@[v] ==> (
        #[trigger] final(visited)@[v]),
        forall|p: int|
            gs <= p < final(indices)@.len() ==> connected(
                connections@,
                s,
                #[trigger] final(indices)@[p],
            ),
        forall|p: int| gs <= p < final(indices)@.len() ==> s <= (#[trigger] final(indices)@[p]),
        forall|p: int, v: usize|
            gs <= p < final(indices)@.len() && #[trigger] edge(connections@, final(indices)@[p], v)
                ==> v < max_index + 1 && final(visited)@[v as int],
        final(indices)@ == bfs_sweep(
            connections@,
            max_index + 1,
            old(indices)@,
            gs as int,
        ),
{
    let node_count = max_index + 1;
    let ghost cs = connections@;
    let ghost ncI = node_count as int;
    let ghost idx_pre = indices@.subrange(0, gs as int);
    let ghost vis0 = visited@;
    let mut head = gs;
    while head < indices.len()
        invariant
            gs <= head <= indices@.len(),
            gs < indices@.len(),
            indices@.len() <= node_count,
            visited@.len() == node_count,
            idx_pre == indices@.subrange(0, gs as int),
            indices@[gs as int] == s,
            forall|p: int|
                0 <= p < indices@.len() ==> (#[trigger] indices@[p]) <= max_index,
            forall|p1: int, p2: int|
                0 <= p1 < p2 < indices@.len() ==> indices@[p1] != indices@[p2],
            forall|v: usize|
                v < node_count ==> ((#[trigger] visited@[v as int])
                    <==> indices@.contains(v)),
            forall|v: int| 0 <= v < s ==> (#[trigger] visited@[v]),
            forall|p: int|
                gs <= p < indices@.len() ==> connected(cs, s, #[trigger] indices@[p]),
            forall|p: int|
                gs <= p < indices@.len() ==> s <= (#[trigger] indices@[p]),
            forall|p: int, v: usize|
                gs <= p < head && #[trigger] edge(cs, indices@[p], v) ==> v
                    < node_count && visited@[v as int],
            bfs_sweep(cs, ncI, indices@, head as int) == bfs_sweep(
                cs,
                ncI,
                old(indices)@,
                gs as int,
            ),
        decreases node_count - head,
    {
        let ghost idx_h0 = indices@;
        let node = indices[head];
        let ra = adj.indptr[node].a;
        let rb = adj.indptr[node].b;
        let ghost row = adj.spec_row(node as int);
        proof {
            assert(row == adjacency_row(cs, node));
            assert(row.len() == rb - ra);
            assert(row.subrange(0, 0) =~= Seq::<usize>::empty());
        }
        let mut p = ra;
        while p < rb
            invariant
                ra <= p <= rb,
                head < indices@.len(),
                gs <= head,
                indices@.len() <= node_count,
                visited@.len() == node_count,
                idx_pre == indices@.subrange(0, gs as int),
                indices@[gs as int] == s,
                node == indices@[head as int],
                forall|p2: int|
                    0 <= p2 < indices@.len() ==> (#[trigger] indices@[p2])
                        <= max_index,
                forall|p1: int, p2: int|
                    0 <= p1 < p2 < indices@.len() ==> indices@[p1] != indices@[p2],
                forall|v: usize|
                    v < node_count ==> ((#[trigger] visited@[v as int])
                        <==> indices@.contains(v)),
                forall|v: int| 0 <= v < s ==> (#[trigger] visited@[v]),
                forall|p2: int|
                    gs <= p2 < indices@.len() ==> connected(
                        cs,
                        s,
                        #[trigger] indices@[p2],
                    ),
                forall|p2: int|
                    gs <= p2 < indices@.len() ==> s <= (#[trigger] indices@[p2]),
                forall|p2: int, v: usize|
                    gs <= p2 < head && #[trigger] edge(cs, indices@[p2], v) ==> v
                        < node_count && visited@[v as int],
                forall|q: int|
                    ra <= q < p ==> (#[trigger] adj.indices@[q]) < node_count
                        && visited@[adj.indices@[q] as int],
                row.len() == rb - ra,
                indices@ == discover(idx_h0, row.subrange(0, p - ra)),
            decreases rb - p,
        {
            let nb = adj.indices[p];
            proof {
                assert(adj.spec_row(node as int)[p - ra] == nb);
                if p > ra {
                    let j = p - ra - 1;
                    assert(row_entries(cs, node)[j] == nb);
                    assert(row_entries(cs, node).contains(nb));
                    lemma_row_entries_edge_forward(cs, node, nb);
                    lemma_edge_bounded(cs, max_index, node, nb);
                } else {
                    assert(nb == node);
                }
            }
            if !visited[nb] {
                proof {
                    assert(p > ra);
                    assert(edge(cs, node, nb));
                    assert(connected(cs, s, node));
                    lemma_connected_step(cs, s, node, nb);
                }
                let ghost idx_mid = indices@;
                let ghost vis_mid = visited@;
                visited[nb] = true;
                indices.push(nb);
                proof {
                    lemma_distinct_bounded(indices@, node_count as int);
                    assert(indices@.subrange(0, gs as int)
                        =~= idx_mid.subrange(0, gs as int));
                    assert(indices@[idx_mid.len() as int] == nb);
                    assert(indices@.contains(nb));
                    assert forall|v: usize| v < node_count implies ((
                    #[trigger] visited@[v as int]) <==> indices@.contains(v)) by {
                        if v != nb {
                            assert(visited@[v as int] == vis_mid[v as int]);
                            if indices@.contains(v) {
                                let q = choose|q: int|
                                    0 <= q < indices@.len() && indices@[q] == v;
                                assert(idx_mid[q] == v);
                                assert(idx_mid.contains(v));
                            }
                            if idx_mid.contains(v) {
                                let q = choose|q: int|
                                    0 <= q < idx_mid.len() && idx_mid[q] == v;
                                assert(indices@[q] == v);
                                assert(indices@.contains(v));
                            }
                        }
                    }
                }
            }
            proof {
                lemma_discover_snoc(idx_h0, row, p - ra);
                assert(row[p - ra] == nb);
            }
            p += 1;
        }
        proof {
            assert(row.subrange(0, rb - ra) =~= row);
            assert(indices@ == discover(idx_h0, adjacency_row(cs, node)));
            assert(idx_h0[head as int] == node);
            assert(bfs_sweep(cs, ncI, idx_h0, head as int) == bfs_sweep(
                cs,
                ncI,
                indices@,
                head as int + 1,
            ));
            assert forall|v: usize| #[trigger] edge(cs, node, v) implies v
                < node_count && visited@[v as int] by {
                lemma_row_entries_edge_backward(cs, node, v);
                lemma_edge_bounded(cs, max_index, node, v);
                let j = choose|j: int|
                    0 <= j < row_entries(cs, node).len() && row_entries(cs, node)[j]
                        == v;
                assert(adj.spec_row(node as int)[j + 1] == v);
                assert(adj.indices@[ra + j + 1] == v);
            }
        }
        head += 1;
    }
    proof {
        assert(indices@.subrange(0, (gs + 1) as int) =~= old(indices)@);
        assert forall|v: int|
            0 <= v < old(visited)@.len() && old(visited)@[v] implies (#[trigger] visited@[v]) by {
            let vv = v as usize;
            assert(old(indices)@.contains(vv));
            let q = choose|q: int| 0 <= q < old(indices)@.len() && old(indices)@[q] == vv;
            assert(indices@[q] == vv);
            assert(indices@.contains(vv));
        }
    }
}



/// Opens a new group at start node `s`: marks it visited, appends it, runs
/// one breadth-first expansion, and records the new `[start, end)` range.
#[verifier::loop_isolation(false)]
#[verifier::rlimit(100)]
#[verifier::spinoff_prover]
fn explore_group(
    adj: &CSR,
    connections: &[IdxPair],
    visited: &mut Vec<bool>,
    indices: &mut Vec<usize>,
    indptr: &mut Vec<IdxPair>,
    s: usize,
    max_index: usize,
)
    requires
        max_index < usize::MAX,
        forall|k: int|
            0 <= k < connections@.len() ==> (#[trigger] connections@[k]).a <= max_index
                && connections@[k].b <= max_index,
        adj.wf(),
        adj.indptr@.len() == max_index + 1,
        forall|n: int|
            0 <= n <= max_index ==> adj.spec_row(n) == adjacency_row(connections@, n as usize),
        s <= max_index,
        old(visited)@.len() == max_index + 1,
        !old(visited)@[s as int],
        old(indices)@.len() <= max_index + 1,
        forall|p: int| 0 <= p < old(indices)@.len() ==> (#[trigger] old(indices)@[p]) <= max_index,
        forall|p1: int, p2: int|
            0 <= p1 < p2 < old(indices)@.len() ==> old(indices)@[p1] != old(indices)@[p2],
        forall|v: usize|
            v < max_index + 1 ==> ((#[trigger] old(visited)@[v as int]) <==> old(
                indices)@.contains(v)),
        forall|v: int| 0 <= v < s ==> (#[trigger] old(visited)@[v]),
        old(indptr)@.len() == 0 ==> old(indices)@.len() == 0,
        old(indptr)@.len() > 0 ==> old(indptr)@[0].a == 0 && old(indptr)@[old(indptr)@.len()
            - 1].b == old(indices)@.len(),
        forall|g: int|
            0 <= g < old(indptr)@.len() ==> (#[trigger] old(indptr)@[g]).a < old(indptr)@[g].b
                <= old(indices)@.len(),
        forall|g: int|
            0 <= g < old(indptr)@.len() - 1 ==> (#[trigger] old(indptr)@[g]).b == old(indptr)@[g
                + 1].a,
        forall|g1: int, g2: int|
            0 <= g1 < g2 < old(indptr)@.len() ==> (#[trigger] old(indptr)@[g1]).b <= (
            #[trigger] old(indptr)@[g2]).a,
        forall|g: int, p: int|
            0 <= g < old(indptr)@.len() && (#[trigger] old(indptr)@[g]).a <= p < old(indptr)@[g].b
                ==> connected(
                connections@,
                old(indices)@[old(indptr)@[g].a as int],
                #[trigger] old(indices)@[p],
            ),
        forall|g: int, p: int|
            0 <= g < old(indptr)@.len() && (#[trigger] old(indptr)@[g]).a <= p < old(indptr)@[g].b
                ==> old(indices)@[old(indptr)@[g].a as int] <= (#[trigger] old(indices)@[p]),
        forall|g: int|
            0 <= g < old(indptr)@.len() ==> (#[trigger] old(indices)@[old(indptr)@[g].a as int])
                < s,
        forall|g1: int, g2: int|
            0 <= g1 < g2 < old(indptr)@.len() ==> old(indices)@[(#[trigger] old(indptr)@[g1]).a as int] < old(indices)@[(#[trigger] old(indptr)@[g2]).a as int],
        groups_closed(old(indices)@, old(indptr)@, connections@),
    ensures
        final(visited)@.len() == max_index + 1,
        final(indices)@.len() <= max_index + 1,
        forall|p: int|
            0 <= p < final(indices)@.len() ==> (#[trigger] final(indices)@[p]) <= max_index,
        forall|p1: int, p2: int|
            0 <= p1 < p2 < final(indices)@.len() ==> final(indices)@[p1] != final(indices)@[p2],
        forall|v: usize|
            v < max_index + 1 ==> ((#[trigger] final(visited)@[v as int]) <==> final(
                indices)@.contains(v)),
        forall|v: int| 0 <= v < old(visited)@.len() && old(visited)@[v] ==> (
        #[trigger] final(visited)@[v]),
        final(visited)@[s as int],
        final(indptr)@.len() > 0 && final(indptr)@[0].a == 0 && final(indptr)@[final(indptr)@.len() - 1].b == final(indices)@.len(),
        forall|g: int|
            0 <= g < final(indptr)@.len() ==> (#[trigger] final(indptr)@[g]).a < final(indptr)@[g].b <= final(indices)@.len(),
        forall|g: int|
            0 <= g < final(indptr)@.len() - 1 ==> (#[trigger] final(indptr)@[g]).b == final(indptr)@[g + 1].a,
        forall|g1: int, g2: int|
            0 <= g1 < g2 < final(indptr)@.len() ==> (#[trigger] final(indptr)@[g1]).b <= (
            #[trigger] final(indptr)@[g2]).a,
        forall|g: int, p: int|
            0 <= g < final(indptr)@.len() && (#[trigger] final(indptr)@[g]).a <= p < final(indptr)@[g].b ==> connected(
                connections@,
                final(indices)@[final(indptr)@[g].a as int],
                #[trigger] final(indices)@[p],
            ),
        forall|g: int, p: int|
            0 <= g < final(indptr)@.len() && (#[trigger] final(indptr)@[g]).a <= p < final(indptr)@[g].b ==> final(indices)@[final(indptr)@[g].a as int] <= (#[trigger] final(indices)@[p]),
        forall|g: int|
            0 <= g < final(indptr)@.len() ==> (#[trigger] final(indices)@[final(indptr)@[g].a as int]) < s + 1,
        forall|g1: int, g2: int|
            0 <= g1 < g2 < final(indptr)@.len() ==> final(indices)@[(#[trigger] final(indptr)@[g1]).a as int] < final(indices)@[(#[trigger] final(indptr)@[g2]).a as int],
        groups_closed(final(indices)@, final(indptr)@, connections@),
        final(indices)@ == bfs_sweep(
            connections@,
            max_index + 1,
            old(indices)@.push(s),
            old(indices)@.len() as int,
        ),
        final(indptr)@ == old(indptr)@.push(
            (IdxPair { a: old(indices)@.len() as usize, b: final(indices)@.len() as usize }),
        ),
{
    let node_count = max_index + 1;
    let ghost cs = connections@;
    let gs = indices.len();
    let ghost idx_pre = indices@;
    let ghost vis_pre = visited@;
    visited[s] = true;
    indices.push(s);
    proof {
        lemma_distinct_bounded(indices@, node_count as int);
        lemma_connected_refl(cs, s);
        assert(indices@[gs as int] == s);
        assert(indices@.contains(s));
        assert forall|v: usize| v < node_count implies ((#[trigger] visited@[v as int])
            <==> indices@.contains(v)) by {
            if v != s {
                assert(visited@[v as int] == vis_pre[v as int]);
                if indices@.contains(v) {
                    let q = choose|q: int| 0 <= q < indices@.len() && indices@[q] == v;
                    assert(idx_pre[q] == v);
                    assert(idx_pre.contains(v));
                }
                if idx_pre.contains(v) {
                    let q = choose|q: int| 0 <= q < idx_pre.len() && idx_pre[q] == v;
                    assert(indices@[q] == v);
                    assert(indices@.contains(v));
                }
            }
        }
    }
    bfs_expand(adj, connections, visited, indices, s, gs, max_index);
    proof {
        assert(indices@.subrange(0, gs as int) =~= idx_pre);
        assert(indices@[gs as int] == s);
        assert(indices@.contains(s));
        assert(visited@[s as int]);
    }
    let ge = indices.len();
    let ghost ptr_pre = indptr@;
    indptr.push(IdxPair::new(gs, ge));
    proof {
        assert(indptr@ =~= ptr_pre.push(IdxPair { a: gs, b: ge }));
        lemma_close_group(
            indices@,
            idx_pre,
            ptr_pre,
            cs,
            gs,
            ge,
            visited@,
            node_count,
        );
    }
    proof {
        assert forall|g: int, p: int|
            0 <= g < indptr@.len() && (#[trigger] indptr@[g]).a <= p < indptr@[g].b implies
            connected(cs, indices@[indptr@[g].a as int], #[trigger] indices@[p]) && indices@[
            indptr@[g].a as int] <= indices@[p] by {
            if g < indptr@.len() - 1 {
                assert(indptr@[g] == old(indptr)@[g]);
                assert(indices@[p] == idx_pre[p]);
                assert(indices@[indptr@[g].a as int] == idx_pre[indptr@[g].a as int]);
            } else {
                assert(indices@[indptr@[g].a as int] == s);
            }
        }
    }
}

/// Closing the range `[gs, ge)` as a new group keeps all groups closed
/// under edges: a neighbor of a new-group member is visited, hence stored
/// somewhere in `idx`; were it in an earlier group, that group's own closure
/// would pull the member into it, contradicting distinctness.
proof fn lemma_close_group(
    idx: Seq<usize>,
    idx_pre: Seq<usize>,
    ptr_pre: Seq<IdxPair>,
    cs: Seq<IdxPair>,
    gs: usize,
    ge: usize,
    vis: Seq<bool>,
    node_count: usize,
)
    requires
        idx.len() == ge,
        gs < ge,
        vis.len() == node_count,
        forall|p: int| 0 <= p < idx.len() ==> (#[trigger] idx[p]) < node_count,
        forall|p1: int, p2: int| 0 <= p1 < p2 < idx.len() ==> idx[p1] != idx[p2],
        forall|v: usize| v < node_count ==> ((#[trigger] vis[v as int]) <==> idx.contains(v)),
        forall|g: int| 0 <= g < ptr_pre.len() ==> (#[trigger] ptr_pre[g]).a < ptr_pre[g].b <= gs,
        forall|g: int|
            0 <= g < ptr_pre.len() - 1 ==> (#[trigger] ptr_pre[g]).b == ptr_pre[g + 1].a,
        ptr_pre.len() > 0 ==> ptr_pre[0].a == 0 && ptr_pre[ptr_pre.len() - 1].b == gs,
        ptr_pre.len() == 0 ==> gs == 0,
        idx_pre == idx.subrange(0, gs as int),
        groups_closed(idx_pre, ptr_pre, cs),
        forall|p: int, v: usize|
            gs <= p < idx.len() && #[trigger] edge(cs, idx[p], v) ==> v < node_count && vis[
                v as int
            ],
    ensures
        groups_closed(idx, ptr_pre.push(IdxPair { a: gs, b: ge }), cs),
{
    let ptr = ptr_pre.push(IdxPair { a: gs, b: ge });
    let gnew = ptr.len() - 1;
    assert forall|g: int, p: int, v: usize|
        0 <= g < ptr.len() && (#[trigger] ptr[g]).a <= p < ptr[g].b && #[trigger] edge(
            cs,
            idx[p],
            v,
        ) implies group_member(idx, ptr, g, v) by {
        if g < gnew {
            assert(ptr[g] == ptr_pre[g]);
            assert(idx[p] == idx_pre[p]);
            assert(group_member(idx_pre, ptr_pre, g, v));
            let q = choose|q: int| ptr_pre[g].a <= q < ptr_pre[g].b && idx_pre[q] == v;
            assert(idx[q] == v);
            assert(group_member(idx, ptr, g, v));
        } else {
            assert(vis[v as int]);
            assert(idx.contains(v));
            let q = choose|q: int| 0 <= q < idx.len() && idx[q] == v;
            if q < gs {
                lemma_partition_covers(ptr_pre, q);
                let g2 = choose|g2: int|
                    0 <= g2 < ptr_pre.len() && (#[trigger] ptr_pre[g2]).a <= q < ptr_pre[g2].b;
                assert(idx_pre[q] == idx[q]);
                assert(edge(cs, idx_pre[q], idx[p]));
                assert(group_member(idx_pre, ptr_pre, g2, idx[p]));
                let q2 = choose|q2: int| ptr_pre[g2].a <= q2 < ptr_pre[g2].b && idx_pre[q2] == idx[
                    p
                ];
                assert(idx[q2] == idx[p]);
                assert(q2 < gs && gs <= p);
                assert(false);
            } else {
                assert(ptr[gnew].a <= q < ptr[gnew].b && idx[q] == v);
                assert(group_member(idx, ptr, gnew, v));
            }
        }
    }
}

/// Any two members of one group are connected, since each is connected to
/// the group's first member.
proof fn lemma_groups_pairwise_connected(idx: Seq<usize>, ptr: Seq<IdxPair>, cs: Seq<IdxPair>)
    requires
        forall|g: int| 0 <= g < ptr.len() ==> 0 <= (#[trigger] ptr[g]).a < ptr[g].b <= idx.len(),
        forall|g: int, p: int|
            0 <= g < ptr.len() && (#[trigger] ptr[g]).a <= p < ptr[g].b ==> connected(
                cs,
                idx[ptr[g].a as int],
                #[trigger] idx[p],
            ),
    ensures
        forall|g: int, p1: int, p2: int|
            0 <= g < ptr.len() && (#[trigger] ptr[g]).a <= p1 < ptr[g].b && ptr[g].a <= p2
                < ptr[g].b ==> connected(cs, #[trigger] idx[p1], #[trigger] idx[p2]),
{
    assert forall|g: int, p1: int, p2: int|
        0 <= g < ptr.len() && (#[trigger] ptr[g]).a <= p1 < ptr[g].b && ptr[g].a <= p2
            < ptr[g].b implies connected(cs, #[trigger] idx[p1], #[trigger] idx[p2]) by {
        let h = idx[ptr[g].a as int];
        assert(connected(cs, h, idx[p1]));
        assert(connected(cs, h, idx[p2]));
        lemma_connected_sym(cs, h, idx[p1]);
        lemma_connected_trans(cs, idx[p1], h, idx[p2]);
    }
}

/// With closed, disjoint groups, connected nodes never sit in two distinct
/// groups: a walk between them would have to leave its group.
proof fn lemma_groups_unique(idx: Seq<usize>, ptr: Seq<IdxPair>, cs: Seq<IdxPair>)
    requires
        forall|g: int| 0 <= g < ptr.len() ==> 0 <= (#[trigger] ptr[g]).a < ptr[g].b <= idx.len(),
        forall|g1: int, g2: int|
            0 <= g1 < g2 < ptr.len() ==> (#[trigger] ptr[g1]).b <= (#[trigger] ptr[g2]).a,
        forall|p1: int, p2: int| 0 <= p1 < p2 < idx.len() ==> idx[p1] != idx[p2],
        groups_closed(idx, ptr, cs),
    ensures
        forall|g1: int, g2: int, p1: int, p2: int|
            0 <= g1 < ptr.len() && 0 <= g2 < ptr.len() && (#[trigger] ptr[g1]).a <= p1 < ptr[g1].b
                && (#[trigger] ptr[g2]).a <= p2 < ptr[g2].b && connected(
                cs,
                #[trigger] idx[p1],
                #[trigger] idx[p2],
            ) ==> g1 == g2,
{
    assert forall|g1: int, g2: int, p1: int, p2: int|
        0 <= g1 < ptr.len() && 0 <= g2 < ptr.len() && (#[trigger] ptr[g1]).a <= p1 < ptr[g1].b && (
        #[trigger] ptr[g2]).a <= p2 < ptr[g2].b && connected(
            cs,
            #[trigger] idx[p1],
            #[trigger] idx[p2],
        ) implies g1 == g2 by {
        let path = choose|path: Seq<usize>| is_path(cs, path, idx[p1], idx[p2]);
        assert(group_member(idx, ptr, g1, idx[p1]));
        lemma_path_stays_in_group(idx, ptr, cs, path, g1, idx[p1], idx[p2]);
        let q = choose|q: int| ptr[g1].a <= q < ptr[g1].b && idx[q] == idx[p2];
        assert(q == p2);
        if g1 < g2 {
            assert(ptr[g1].b <= ptr[g2].a);
            assert(false);
        } else if g2 < g1 {
            assert(ptr[g2].b <= ptr[g1].a);
            assert(false);
        }
    }
}

/// Group `g` of the partition `(idx, ptr)` contains node `v`.
pub open spec fn group_member(idx: Seq<usize>, ptr: Seq<IdxPair>, g: int, v: usize) -> bool {
    exists|p: int| ptr[g].a <= p < ptr[g].b && idx[p] == v
}

/// Every neighbor of a member of a group is itself a member of that group.
pub open spec fn groups_closed(idx: Seq<usize>, ptr: Seq<IdxPair>, conns: Seq<IdxPair>) -> bool {
    forall|g: int, p: int, v: usize|
        0 <= g < ptr.len() && (#[trigger] ptr[g]).a <= p < ptr[g].b && #[trigger] edge(
            conns,
            idx[p],
            v,
        ) ==> group_member(idx, ptr, g, v)
}

/// A sequence of distinct values below `bound` has at most `bound` entries.
proof fn lemma_distinct_bounded(s: Seq<usize>, bound: int)
    requires
        0 <= bound,
        forall|p: int| 0 <= p < s.len() ==> (#[trigger] s[p]) < bound,
        forall|p1: int, p2: int| 0 <= p1 < p2 < s.len() ==> s[p1] != s[p2],
    ensures
        s.len() <= bound,
{
    let si = s.map_values(|x: usize| x as int);
    assert(si.no_duplicates());
    si.unique_seq_to_set();
    vstd::set_lib::lemma_int_range(0, bound);
    assert(si.to_set().subset_of(vstd::set_lib::set_int_range(0, bound)));
    vstd::set_lib::lemma_len_subset(si.to_set(), vstd::set_lib::set_int_range(0, bound));
}

/// A sequence of distinct values below `bound` that contains every value
/// below `bound` has exactly `bound` entries.
proof fn lemma_distinct_bounded_full(s: Seq<usize>, bound: int)
    requires
        0 <= bound <= usize::MAX,
        forall|p: int| 0 <= p < s.len() ==> (#[trigger] s[p]) < bound,
        forall|p1: int, p2: int| 0 <= p1 < p2 < s.len() ==> s[p1] != s[p2],
        forall|v: int| 0 <= v < bound ==> #[trigger] s.contains(v as usize),
    ensures
        s.len() == bound,
{
    let si = s.map_values(|x: usize| x as int);
    assert(si.no_duplicates());
    si.unique_seq_to_set();
    vstd::set_lib::lemma_int_range(0, bound);
    assert forall|v: int| 0 <= v < bound implies si.to_set().contains(v) by {
        assert(s.contains(v as usize));
        let p = choose|p: int| 0 <= p < s.len() && s[p] == v as usize;
        assert(si[p] == v);
        assert(si.contains(v));
    }
    assert(si.to_set() =~= vstd::set_lib::set_int_range(0, bound));
}

/// In a partition whose ranges tile `[0, L)`, every position below `L` falls
/// in some group.
proof fn lemma_partition_covers(ptr: Seq<IdxPair>, q: int)
    requires
        ptr.len() > 0,
        forall|g: int| 0 <= g < ptr.len() ==> (#[trigger] ptr[g]).a <= ptr[g].b,
        forall|g: int| 0 <= g < ptr.len() - 1 ==> (#[trigger] ptr[g]).b == ptr[g + 1].a,
        ptr[0].a == 0,
        0 <= q < ptr[ptr.len() - 1].b,
    ensures
        exists|g: int| 0 <= g < ptr.len() && (#[trigger] ptr[g]).a <= q < ptr[g].b,
    decreases ptr.len(),
{
    let last = ptr.len() - 1;
    if ptr[last].a <= q {
        assert(0 <= last < ptr.len() && ptr[last].a <= q < ptr[last].b);
    } else {
        if ptr.len() == 1 {
            assert(false);
        } else {
            let front = ptr.drop_last();
            assert(front[front.len() - 1].b == ptr[last].a);
            lemma_partition_covers(front, q);
            let g = choose|g: int| 0 <= g < front.len() && (#[trigger] front[g]).a <= q < front[g].b;
            assert(0 <= g < ptr.len() && ptr[g].a <= q < ptr[g].b);
        }
    }
}

/// In closed groups, a walk can never leave the group it starts in.
proof fn lemma_path_stays_in_group(
    idx: Seq<usize>,
    ptr: Seq<IdxPair>,
    conns: Seq<IdxPair>,
    path: Seq<usize>,
    g: int,
    u: usize,
    v: usize,
)
    requires
        groups_closed(idx, ptr, conns),
        0 <= g < ptr.len(),
        forall|gg: int| 0 <= gg < ptr.len() ==> 0 <= (#[trigger] ptr[gg]).a <= ptr[gg].b
            <= idx.len(),
        group_member(idx, ptr, g, u),
        is_path(conns, path, u, v),
    ensures
        group_member(idx, ptr, g, v),
    decreases path.len(),
{
    if path.len() == 1 {
        assert(u == v);
    } else {
        let z: int = 0;
        assert(edge(conns, path[z], path[z + 1]));
        let p = choose|p: int| ptr[g].a <= p < ptr[g].b && idx[p] == u;
        assert(group_member(idx, ptr, g, path[1]));
        let rest = path.subrange(1, path.len() as int);
        assert forall|i: int| 0 <= i < rest.len() - 1 implies edge(
            conns,
            rest[i],
            #[trigger] rest[i + 1],
        ) by {
            assert(edge(conns, path[i + 1], path[i + 1 + 1]));
        }
        assert(is_path(conns, rest, path[1], v));
        lemma_path_stays_in_group(idx, ptr, conns, rest, g, path[1], v);
    }
}

/// A value among a node's neighbor entries is an edge partner of it.
proof fn lemma_row_entries_edge_forward(conns: Seq<IdxPair>, u: usize, v: usize)
    ensures
        row_entries(conns, u).contains(v) ==> edge(conns, u, v),
    decreases conns.len(),
{
    if conns.len() > 0 && row_entries(conns, u).contains(v) {
        let front = row_entries(conns.drop_last(), u);
        if front.contains(v) {
            lemma_row_entries_edge_forward(conns.drop_last(), u, v);
            let k = choose|k: int|
                0 <= k < conns.drop_last().len() && ((#[trigger] conns.drop_last()[k]).a == u
                    && conns.drop_last()[k].b == v || conns.drop_last()[k].a == v
                    && conns.drop_last()[k].b == u);
            assert(conns[k] == conns.drop_last()[k]);
        } else {
            let c = conns.last();
            assert(c == conns[conns.len() - 1]);
            assert(c.a == u && c.b == v || c.a == v && c.b == u);
        }
    }
}

proof fn lemma_row_entries_edge_backward(conns: Seq<IdxPair>, u: usize, v: usize)
    requires
        edge(conns, u, v),
    ensures
        row_entries(conns, u).contains(v),
    decreases conns.len(),
{
    let k = choose|k: int|
        0 <= k < conns.len() && ((#[trigger] conns[k]).a == u && conns[k].b == v || conns[k].a == v
            && conns[k].b == u);
    if k == conns.len() - 1 {
        let front = row_entries(conns.drop_last(), u);
        let c = conns.last();
        if c.a == u && c.b == v {
            assert(row_entries(conns, u)[if c.b == u {
                row_entries(conns, u).len() - 2
            } else {
                row_entries(conns, u).len() - 1
            }] == v);
        } else {
            assert(row_entries(conns, u).last() == v);
        }
    } else {
        assert(conns.drop_last()[k] == conns[k]);
        assert(edge(conns.drop_last(), u, v));
        lemma_row_entries_edge_backward(conns.drop_last(), u, v);
        let front = row_entries(conns.drop_last(), u);
        let p = choose|p: int| 0 <= p < front.len() && front[p] == v;
        assert(row_entries(conns, u)[p] == v);
    }
}

/// Every edge endpoint lies within the declared node range.
proof fn lemma_edge_bounded(conns: Seq<IdxPair>, max_index: usize, u: usize, v: usize)
    requires
        forall|k: int|
            0 <= k < conns.len() ==> (#[trigger] conns[k]).a <= max_index && conns[k].b
                <= max_index,
        edge(conns, u, v),
    ensures
        u <= max_index,
        v <= max_index,
{
}

/// An empty connection list contributes no entries.
proof fn lemma_entries_sum_empty(conns: Seq<IdxPair>, m: int)
    requires
        conns.len() == 0,
    ensures
        entries_sum(conns, m) == 0,
    decreases m,
{
    if m > 0 {
        lemma_entries_sum_empty(conns, m - 1);
    }
}

impl CSR {
    /// The adjacency slice of row `i`.
    pub fn row(&self, i: usize) -> (r: &[usize])
        requires
            self.wf(),
            i < self.indptr@.len(),
        ensures
            r@ == self.spec_row(i as int),
    {
        let IdxPair { a, b } = self.indptr[i];
        &self.indices[a..b]
    }

    /// An iterator over the rows, front to back.
    pub fn rows(&self) -> (r: CSRRowIter<'_>)
        ensures
            r.csr == self,
            r.row == 0,
    {
        CSRRowIter { csr: self, row: 0 }
    }
}

/// Walks the rows of a `CSR` in order.
pub struct CSRRowIter<'a> {
    pub csr: &'a CSR,
    pub row: usize,
}

impl<'a> CSRRowIter<'a> {
    /// The next row, or `None` once every row has been handed out.
    pub fn next(&mut self) -> (r: Option<&'a [usize]>)
        requires
            old(self).csr.wf(),
        ensures
            final(self).csr == old(self).csr,
            old(self).row < old(self).csr.indptr@.len() ==> r is Some && r->0@ == old(
                self,
            ).csr.spec_row(old(self).row as int) && final(self).row == old(self).row + 1,
            old(self).row >= old(self).csr.indptr@.len() ==> r is None && final(self).row == old(
                self,
            ).row,
    {
        if self.row >= self.csr.indptr.len() {
            return None;
        }
        let slice = self.csr.row(self.row);
        self.row += 1;
        Some(slice)
    }
}

} // verus!
