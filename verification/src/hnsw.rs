//! The per-node adjacency of a layered proximity graph.

use vstd::prelude::*;
use crate::types::VectorId;

verus! {

/// Per-node graph: one neighbour list per layer the node lives on.
#[derive(Debug)]
pub struct NodeGraph {
    pub layers: Vec<Vec<VectorId>>,
}

impl NodeGraph {
    pub fn new() -> (r: Self)
        ensures
            r.layers@.len() == 0,
    {
        NodeGraph { layers: Vec::new() }
    }

    /// The top layer the node lives on (-1 for none): the layer count as an
    /// `i32`, less one, wrapping.
    pub fn max_layer(&self) -> (r: i32)
        ensures
            r == (self.layers@.len() as i32).wrapping_sub(1),
            self.layers@.len() <= i32::MAX ==> r == self.layers@.len() - 1,
    {
        (self.layers.len() as i32).wrapping_sub(1)
    }

    /// Adds empty neighbour lists until the node lives on `layer`.
    pub fn ensure_layer(&mut self, layer: usize)
        requires
            layer < usize::MAX,
        ensures
            final(self).layers@.len() == if old(self).layers@.len() > layer {
                old(self).layers@.len() as int
            } else {
                layer + 1
            },
            forall|i: int| 0 <= i < old(self).layers@.len() ==> final(self).layers@[i] == old(self).layers@[i],
            forall|i: int|
                old(self).layers@.len() <= i < final(self).layers@.len() ==> final(self).layers@[i]@.len() == 0,
    {
        while self.layers.len() <= layer
            invariant
                layer < usize::MAX,
                old(self).layers@.len() <= self.layers@.len() <= if old(self).layers@.len() > layer {
                    old(self).layers@.len() as int
                } else {
                    layer + 1
                },
                forall|i: int| 0 <= i < old(self).layers@.len() ==> self.layers@[i] == old(self).layers@[i],
                forall|i: int| old(self).layers@.len() <= i < self.layers@.len() ==> self.layers@[i]@.len() == 0,
            decreases layer + 1 - self.layers@.len(),
        {
            self.layers.push(Vec::new());
        }
    }
}

impl Default for NodeGraph {
    fn default() -> (r: Self)
        ensures
            r.layers@.len() == 0,
    {
        NodeGraph::new()
    }
}

/// A neighbour list without `id`, the others in order.
pub open spec fn without_node(s: Seq<VectorId>, id: VectorId) -> Seq<VectorId>
    decreases s.len(),
{
    if s.len() == 0 {
        s
    } else if s.last() == id {
        without_node(s.drop_last(), id)
    } else {
        without_node(s.drop_last(), id).push(s.last())
    }
}

/// A neighbour list with `id` added at the end, unless already there.
pub open spec fn with_node(s: Seq<VectorId>, id: VectorId) -> Seq<VectorId> {
    if s.contains(id) {
        s
    } else {
        s.push(id)
    }
}

impl NodeGraph {
    /// Drops `id` from every neighbour list (the back-links of a removed node).
    pub fn unlink(&mut self, id: VectorId)
        ensures
            final(self).layers@.len() == old(self).layers@.len(),
            forall|i: int|
                0 <= i < old(self).layers@.len() ==> #[trigger] final(self).layers@[i]@ == without_node(
                    old(self).layers@[i]@,
                    id,
                ),
    {
        let n = self.layers.len();
        let mut i: usize = 0;
        while i < n
            invariant
                n == self.layers@.len(),
                n == old(self).layers@.len(),
                i <= n,
                forall|j: int| 0 <= j < i ==> #[trigger] self.layers@[j]@ == without_node(old(self).layers@[j]@, id),
                forall|j: int| i <= j < n ==> #[trigger] self.layers@[j] == old(self).layers@[j],
            decreases n - i,
        {
            let mut kept: Vec<VectorId> = Vec::new();
            let m = self.layers[i].len();
            let mut k: usize = 0;
            while k < m
                invariant
                    n == self.layers@.len(),
                    i < n,
                    m == self.layers@[i as int]@.len(),
                    k <= m,
                    kept@ == without_node(self.layers@[i as int]@.take(k as int), id),
                decreases m - k,
            {
                let x = self.layers[i][k];
                proof {
                    let s = self.layers@[i as int]@;
                    assert(s.take(k + 1).drop_last() =~= s.take(k as int));
                    assert(s.take(k + 1).last() == x);
                }
                if x != id {
                    kept.push(x);
                }
                k = k + 1;
            }
            proof {
                assert(self.layers@[i as int]@.take(m as int) =~= self.layers@[i as int]@);
            }
            let ghost before = self.layers@;
            self.layers.set(i, kept);
            proof {
                assert forall|j: int| 0 <= j < i + 1 implies #[trigger] self.layers@[j]@ == without_node(old(self).layers@[j]@, id) by {
                    if j < i {
                        assert(self.layers@[j] == before[j]);
                    }
                }
                assert forall|j: int| i + 1 <= j < n implies #[trigger] self.layers@[j] == old(self).layers@[j] by {
                    assert(self.layers@[j] == before[j]);
                }
            }
            i = i + 1;
        }
    }

    /// Links `to` on `layer` (creating the layer's list if needed), unless it
    /// is linked there already; returns the list's new length.
    pub fn link(&mut self, layer: usize, to: VectorId) -> (r: usize)
        requires
            layer < usize::MAX,
        ensures
            final(self).layers@.len() == if old(self).layers@.len() > layer {
                old(self).layers@.len() as int
            } else {
                layer + 1
            },
            forall|i: int|
                0 <= i < final(self).layers@.len() && i != layer ==> #[trigger] final(self).layers@[i]@
                    == if i < old(self).layers@.len() {
                    old(self).layers@[i]@
                } else {
                    Seq::<VectorId>::empty()
                },
            final(self).layers@[layer as int]@ == with_node(
                if layer < old(self).layers@.len() {
                    old(self).layers@[layer as int]@
                } else {
                    Seq::<VectorId>::empty()
                },
                to,
            ),
            r == final(self).layers@[layer as int]@.len(),
    {
        self.ensure_layer(layer);
        let mut list: Vec<VectorId> = Vec::new();
        std::mem::swap(&mut list, &mut self.layers[layer]);
        let mut found = false;
        let mut k: usize = 0;
        while k < list.len()
            invariant
                k <= list@.len(),
                found == list@.take(k as int).contains(to),
            decreases list@.len() - k,
        {
            proof {
                let t0 = list@.take(k as int);
                let t1 = list@.take(k + 1);
                assert(t1 =~= t0.push(list@[k as int]));
                if t1.contains(to) {
                    let a = choose|a: int| 0 <= a < t1.len() && t1[a] == to;
                    if a < k {
                        assert(t0[a] == to);
                    }
                }
                if t0.contains(to) {
                    let a = choose|a: int| 0 <= a < t0.len() && t0[a] == to;
                    assert(t1[a] == to);
                }
                if list@[k as int] == to {
                    assert(t1[k as int] == to);
                }
            }
            if list[k] == to {
                found = true;
            }
            k = k + 1;
        }
        proof {
            assert(list@.take(list@.len() as int) =~= list@);
        }
        if !found {
            list.push(to);
        }
        let len = list.len();
        std::mem::swap(&mut list, &mut self.layers[layer]);
        len
    }
}

/// Where a search enters the graph after `removed` leaves it: where it
/// entered before, unless `removed` was the entry point; then at `next`
/// (the node picked among those left, if any), on the top layer of
/// `next_graph`, its adjacency, or on layer -1 when either is missing.
pub fn entry_after_remove(
    entry: Option<VectorId>,
    max_layer: i32,
    removed: VectorId,
    next: Option<VectorId>,
    next_graph: Option<&NodeGraph>,
) -> (r: (Option<VectorId>, i32))
    ensures
        entry != Some(removed) ==> r == (entry, max_layer),
        entry == Some(removed) ==> r.0 == next && r.1 == match (next, next_graph) {
            (Some(_), Some(g)) => (g.layers@.len() as i32).wrapping_sub(1),
            _ => -1i32,
        },
{
    if entry == Some(removed) {
        let top = match (next, next_graph) {
            (Some(_), Some(g)) => g.max_layer(),
            _ => -1,
        };
        (next, top)
    } else {
        (entry, max_layer)
    }
}

} // verus!
