//! The bookkeeping of a budgeted column beam: which candidates of a column
//! are admitted for scoring, and where the walk over the fractal layers goes
//! once a frontier has been scanned. Scoring itself happens elsewhere.

use vstd::prelude::*;
use std::collections::HashSet;
use crate::grid::CellCoord;

verus! {

broadcast use vstd::std_specs::hash::group_hash_axioms;

/// Whether `touched` candidates have used up the budget (`0` = unlimited).
pub open spec fn exhausted(touch_budget: usize, touched: nat) -> bool {
    touch_budget > 0 && touched >= touch_budget
}

/// Whether the touch budget is used up.
pub fn budget_exhausted(touch_budget: usize, touched: usize) -> (r: bool)
    ensures
        r == exhausted(touch_budget, touched as nat),
{
    touch_budget > 0 && touched >= touch_budget
}

/// The positions of a column admitted for scoring when the scan starts at
/// position `i` with `visited` already touched, and the touched set after it.
/// The scan stops as soon as the budget is used up; it skips ids that are not
/// eligible and ids touched before; every other id is touched and admitted.
pub open spec fn admitted_from(
    ids: Seq<u64>,
    eligible: Seq<bool>,
    i: int,
    visited: Set<u64>,
    touch_budget: usize,
) -> (Seq<usize>, Set<u64>)
    decreases ids.len() - i,
{
    if i < 0 || i >= ids.len() || exhausted(touch_budget, visited.len()) {
        (Seq::empty(), visited)
    } else if !eligible[i] || visited.contains(ids[i]) {
        admitted_from(ids, eligible, i + 1, visited, touch_budget)
    } else {
        let rest = admitted_from(ids, eligible, i + 1, visited.insert(ids[i]), touch_budget);
        (seq![i as usize] + rest.0, rest.1)
    }
}

/// A hard touch budget holds: a scan that starts within a nonzero budget
/// leaves the touched set within it. The touched set grows by exactly the
/// admitted ids, and the admitted positions come in increasing order, each
/// holding an eligible id that had not been touched before.
pub proof fn law_admission_within_budget(
    ids: Seq<u64>,
    eligible: Seq<bool>,
    i: int,
    visited: Set<u64>,
    touch_budget: usize,
)
    requires
        0 <= i,
        ids.len() <= usize::MAX,
        eligible.len() == ids.len(),
        visited.finite(),
        touch_budget > 0 ==> visited.len() <= touch_budget,
    ensures
        ({
            let (pos, after) = admitted_from(ids, eligible, i, visited, touch_budget);
            &&& after.finite()
            &&& touch_budget > 0 ==> after.len() <= touch_budget
            &&& after.len() == visited.len() + pos.len()
            &&& visited.subset_of(after)
            &&& forall|k: int|
                0 <= k < pos.len() ==> {
                    &&& i <= #[trigger] pos[k] < ids.len()
                    &&& eligible[pos[k] as int]
                    &&& !visited.contains(ids[pos[k] as int])
                    &&& after.contains(ids[pos[k] as int])
                }
            &&& forall|k: int, l: int| 0 <= k < l < pos.len() ==> pos[k] < pos[l]
        }),
    decreases ids.len() - i,
{
    if i >= ids.len() || exhausted(touch_budget, visited.len()) {
    } else if !eligible[i] || visited.contains(ids[i]) {
        law_admission_within_budget(ids, eligible, i + 1, visited, touch_budget);
    } else {
        let v2 = visited.insert(ids[i]);
        law_admission_within_budget(ids, eligible, i + 1, v2, touch_budget);
        let rest = admitted_from(ids, eligible, i + 1, v2, touch_budget);
        let pos = seq![i as usize] + rest.0;
        assert forall|k: int| 0 <= k < pos.len() implies {
            &&& i <= #[trigger] pos[k] < ids.len()
            &&& eligible[pos[k] as int]
            &&& !visited.contains(ids[pos[k] as int])
            &&& rest.1.contains(ids[pos[k] as int])
        } by {
            if k > 0 {
                assert(pos[k] == rest.0[k - 1]);
            }
        }
        assert forall|k: int, l: int| 0 <= k < l < pos.len() implies pos[k] < pos[l] by {
            if k > 0 {
                assert(pos[k] == rest.0[k - 1]);
            }
            assert(pos[l] == rest.0[l - 1]);
        }
    }
}

/// Admits the candidates of one column in order: returns the positions to
/// score and records their ids in `visited` (`eligible[i]` says whether the
/// id at position `i` passes the payload filter).
pub fn admit_ids(
    ids: &Vec<u64>,
    eligible: &Vec<bool>,
    visited: &mut HashSet<u64>,
    touch_budget: usize,
) -> (r: Vec<usize>)
    requires
        eligible@.len() == ids@.len(),
        old(visited)@.finite(),
    ensures
        (r@, final(visited)@) == admitted_from(ids@, eligible@, 0, old(visited)@, touch_budget),
        final(visited)@.finite(),
{
    let ghost total = admitted_from(ids@, eligible@, 0, old(visited)@, touch_budget);
    let mut out: Vec<usize> = Vec::new();
    let mut i: usize = 0;
    while i < ids.len() && !budget_exhausted(touch_budget, visited.len())
        invariant
            eligible@.len() == ids@.len(),
            i <= ids@.len(),
            visited@.finite(),
            total == admitted_from(ids@, eligible@, 0, old(visited)@, touch_budget),
            out@ + admitted_from(ids@, eligible@, i as int, visited@, touch_budget).0 == total.0,
            admitted_from(ids@, eligible@, i as int, visited@, touch_budget).1 == total.1,
        decreases ids@.len() - i,
    {
        let id = ids[i];
        let ghost before = visited@;
        let ghost rest = admitted_from(ids@, eligible@, i + 1, before.insert(id), touch_budget);
        if eligible[i] {
            let fresh = visited.insert(id);
            if fresh {
                proof {
                    assert(out@.push(i) + rest.0 =~= out@ + (seq![i] + rest.0));
                }
                out.push(i);
            } else {
                proof {
                    assert(before.insert(id) =~= before);
                }
            }
        }
        i = i + 1;
    }
    proof {
        assert(out@ + Seq::<usize>::empty() =~= out@);
    }
    out
}

/// Where the walk goes once a frontier has been scanned and did not descend.
#[derive(Debug, Clone, Copy, PartialEq, Eq, Structural)]
pub enum BeamMove {
    /// The walk ends.
    Stop,
    /// Back up to the siblings of this cell, on its layer (a revert).
    Siblings(CellCoord),
    /// Back up to the whole layer above (a revert).
    LayerUp,
}

/// The state of a walk down the fractal layers: the current layer, the
/// deepest layer it may reach, the layer it last descended to, and the
/// trail of cells it descended from (the revert stack).
#[derive(Debug)]
pub struct BeamWalk {
    pub depth: u8,
    pub max_depth: u8,
    pub deepest: u8,
    pub trail: Vec<CellCoord>,
}

impl BeamWalk {
    /// A walk that starts on layer `start`, with an empty trail.
    pub fn new(start: u8, max_depth: u8) -> (r: Self)
        ensures
            r.depth == start,
            r.max_depth == max_depth,
            r.deepest == start,
            r.trail@.len() == 0,
    {
        BeamWalk { depth: start, max_depth, deepest: start, trail: Vec::new() }
    }

    /// Whether the walk may try the children of a frontier of `frontier_len`
    /// cells: it is above the deepest layer and the frontier is not empty.
    pub fn can_descend(&self, frontier_len: usize) -> (r: bool)
        ensures
            r == (self.depth < self.max_depth && frontier_len > 0),
    {
        self.depth < self.max_depth && frontier_len > 0
    }

    /// Descends one layer, remembering `from` (the best cell of the frontier
    /// left behind) on the trail.
    pub fn descend(&mut self, from: CellCoord)
        requires
            old(self).depth < old(self).max_depth,
        ensures
            final(self).depth == old(self).depth + 1,
            final(self).deepest == final(self).depth,
            final(self).max_depth == old(self).max_depth,
            final(self).trail@ == old(self).trail@.push(from),
    {
        self.trail.push(from);
        self.depth = self.depth + 1;
        self.deepest = self.depth;
    }

    /// After a frontier that did not descend: stop when it found candidates
    /// and the pool holds `recall_k` of them; otherwise back up to the last
    /// cell on the trail (moving to its layer), or else to the layer above;
    /// stop on the top layer with an empty trail.
    pub fn after_level(&mut self, found_any: bool, pool_len: usize, recall_k: usize) -> (m: BeamMove)
        ensures
            final(self).max_depth == old(self).max_depth,
            final(self).deepest == old(self).deepest,
            found_any && pool_len >= recall_k ==> {
                &&& m == BeamMove::Stop
                &&& final(self).depth == old(self).depth
                &&& final(self).trail@ == old(self).trail@
            },
            !(found_any && pool_len >= recall_k) && old(self).trail@.len() > 0 ==> {
                let last = old(self).trail@.last();
                &&& m == BeamMove::Siblings(last)
                &&& final(self).trail@ == old(self).trail@.drop_last()
                &&& final(self).depth == last.layer
            },
            !(found_any && pool_len >= recall_k) && old(self).trail@.len() == 0 && old(self).depth > 0
                ==> {
                &&& m == BeamMove::LayerUp
                &&& final(self).depth == old(self).depth - 1
                &&& final(self).trail@ == old(self).trail@
            },
            !(found_any && pool_len >= recall_k) && old(self).trail@.len() == 0 && old(self).depth == 0
                ==> {
                &&& m == BeamMove::Stop
                &&& final(self).depth == 0
                &&& final(self).trail@.len() == 0
            },
    {
        if found_any && pool_len >= recall_k {
            return BeamMove::Stop;
        }
        match self.trail.pop() {
            Some(parent) => {
                self.depth = parent.layer;
                BeamMove::Siblings(parent)
            },
            None => {
                if self.depth > 0 {
                    self.depth = self.depth - 1;
                    BeamMove::LayerUp
                } else {
                    BeamMove::Stop
                }
            },
        }
    }
}

} // verus!
