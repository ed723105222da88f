//! The bookkeeping of an inverted-file index: entries kept in lists, and
//! where each id sits, for constant-time lookup and removal.

use vstd::prelude::*;
use std::collections::HashMap;
use crate::types::VectorId;

verus! {

broadcast use vstd::std_specs::hash::group_hash_axioms;

/// The inverted lists of an index, entries tagged by id, with the slot of
/// each located id.
#[derive(Debug)]
pub struct IvfLists<E> {
    lists: Vec<Vec<(VectorId, E)>>,
    locate: HashMap<u64, (usize, usize)>,
}

/// The number inside an id.
pub open spec fn raw_id(id: VectorId) -> u64 {
    id.0
}

/// At most ten thousand, at least 256 training points: 256 per list.
pub open spec fn sample_cap(nlist: usize) -> usize {
    let per = if nlist * 256 > usize::MAX { usize::MAX as int } else { nlist * 256 };
    if per < 256 {
        256
    } else if per > 10_000 {
        10_000
    } else {
        per as usize
    }
}

/// Caps the training set so large corpora do not explode clustering cost:
/// about 256 points per list, clamped to `[256, 10_000]`.
pub fn training_sample_cap(nlist: usize) -> (r: usize)
    ensures
        r == sample_cap(nlist),
{
    let per = if nlist > usize::MAX / 256 {
        usize::MAX
    } else {
        nlist * 256
    };
    if per < 256 {
        256
    } else if per > 10_000 {
        10_000
    } else {
        per
    }
}

/// Every entry of every list is located at its own slot (so no id occurs
/// twice across the lists).
pub open spec fn complete_at<E>(entries: Seq<Seq<(VectorId, E)>>, located: Map<u64, (usize, usize)>) -> bool {
    forall|li: int, pos: int|
        0 <= li < entries.len() && 0 <= pos < entries[li].len() ==> located.contains_key(
            #[trigger] raw_id(entries[li][pos].0),
        ) && located[raw_id(entries[li][pos].0)].0 == li && located[raw_id(entries[li][pos].0)].1 == pos
}

proof fn lemma_remove_complete<E>(
    entries: Seq<Seq<(VectorId, E)>>,
    located: Map<u64, (usize, usize)>,
    id: VectorId,
    entries2: Seq<Seq<(VectorId, E)>>,
    located2: Map<u64, (usize, usize)>,
)
    requires
        complete_at(entries, located),
        located.contains_key(id.0),
        ({
            let (li, pos) = located[id.0];
            let list = entries[li as int];
            let last = list.len() - 1;
            &&& li < entries.len()
            &&& pos < list.len()
            &&& raw_id(list[pos as int].0) == id.0
            &&& entries2 == entries.update(li as int, list.update(pos as int, list[last]).drop_last())
            &&& located2 == if pos < last {
                located.remove(id.0).insert(raw_id(list[last].0), (li, pos))
            } else {
                located.remove(id.0)
            }
        }),
    ensures
        complete_at(entries2, located2),
        !located2.contains_key(id.0),
        forall|x: u64| x != id.0 ==> (located2.contains_key(x) == located.contains_key(x)),
{
    let (li, pos) = located[id.0];
    let list = entries[li as int];
    let last = list.len() - 1;
    if pos < last {
        assert(located[raw_id(list[last].0)].1 == last);
        assert(raw_id(list[last].0) != id.0);
    }
    assert forall|l2: int, p2: int| 0 <= l2 < entries2.len() && 0 <= p2 < entries2[l2].len() implies located2.contains_key(
        #[trigger] raw_id(entries2[l2][p2].0),
    ) && located2[raw_id(entries2[l2][p2].0)].0 == l2 && located2[raw_id(entries2[l2][p2].0)].1 == p2 by {
        if l2 != li {
            assert(entries2[l2] == entries[l2]);
            let r = raw_id(entries[l2][p2].0);
            assert(located[r].0 == l2);
            assert(r != id.0);
            if pos < last {
                assert(r != raw_id(list[last].0));
            }
        } else if p2 == pos {
            assert(entries2[l2][p2] == list[last]);
        } else {
            assert(entries2[l2][p2] == list[p2]);
            let r = raw_id(list[p2].0);
            assert(located[r].1 == p2);
            assert(r != id.0);
            if pos < last {
                assert(r != raw_id(list[last].0));
            }
        }
    }
}

impl<E> IvfLists<E> {
    /// Every entry is located at its own slot (see `complete_at`).
    pub open spec fn complete(&self) -> bool {
        complete_at(self.entries(), self.located())
    }

    /// Where each located id sits.
    pub closed spec fn located(&self) -> Map<u64, (usize, usize)> {
        self.locate@
    }

    /// The lists, entry by entry.
    pub closed spec fn entries(&self) -> Seq<Seq<(VectorId, E)>> {
        self.lists@.map_values(|l: Vec<(VectorId, E)>| l@)
    }

    proof fn lemma_entries(&self)
        ensures
            self.entries().len() == self.lists@.len(),
            forall|i: int| 0 <= i < self.lists@.len() ==> #[trigger] self.entries()[i] == self.lists@[i]@,
    {
    }

    /// Every located id sits where the index says.
    pub closed spec fn well_formed(&self) -> bool {
        forall|id: u64| #[trigger]
            self.located().contains_key(id) ==> {
                let (li, pos) = self.located()[id];
                &&& li < self.entries().len()
                &&& pos < self.entries()[li as int].len()
                &&& raw_id(self.entries()[li as int][pos as int].0) == id
            }
    }

    /// `max(nlist, 1)` empty lists.
    pub fn new(nlist: usize) -> (r: Self)
        ensures
            r.well_formed(),
            r.entries().len() == if nlist == 0 { 1 } else { nlist as int },
            forall|i: int| 0 <= i < r.entries().len() ==> r.entries()[i].len() == 0,
            r.located() == Map::<u64, (usize, usize)>::empty(),
            r.complete(),
    {
        let n = if nlist == 0 { 1 } else { nlist };
        let mut lists: Vec<Vec<(VectorId, E)>> = Vec::new();
        let mut i: usize = 0;
        while i < n
            invariant
                i <= n,
                lists@.len() == i,
                forall|j: int| 0 <= j < i ==> lists@[j]@.len() == 0,
            decreases n - i,
        {
            lists.push(Vec::new());
            i = i + 1;
        }
        IvfLists { lists, locate: HashMap::new() }
    }

    /// Appends an entry to list `li` and locates its id there.
    pub fn push(&mut self, li: usize, id: VectorId, entry: E)
        requires
            old(self).well_formed(),
            li < old(self).entries().len(),
        ensures
            final(self).well_formed(),
            final(self).entries().len() == old(self).entries().len(),
            final(self).entries()[li as int] == old(self).entries()[li as int].push((id, entry)),
            forall|j: int| 0 <= j < old(self).entries().len() && j != li ==> final(self).entries()[j] == old(self).entries()[j],
            final(self).located() == old(self).located().insert(id.0, (li, old(self).entries()[li as int].len() as usize)),
            old(self).complete() && !old(self).located().contains_key(id.0) ==> final(self).complete(),
    {
        proof { self.lemma_entries(); }
        let mut list: Vec<(VectorId, E)> = Vec::new();
        std::mem::swap(&mut list, &mut self.lists[li]);
        let pos = list.len();
        list.push((id, entry));
        std::mem::swap(&mut list, &mut self.lists[li]);
        self.locate.insert(id.0, (li, pos));
        proof {
            self.lemma_entries();
            old(self).lemma_entries();
            assert(self.entries() =~= old(self).entries().update(li as int, old(self).entries()[li as int].push((id, entry))));
            assert forall|x: u64| #[trigger] self.located().contains_key(x) implies {
                let (l2, p2) = self.located()[x];
                &&& l2 < self.entries().len()
                &&& p2 < self.entries()[l2 as int].len()
                &&& raw_id(self.entries()[l2 as int][p2 as int].0) == x
            } by {
                if x != id.0 {
                    let (l2, p2) = old(self).located()[x];
                    if l2 == li {
                        assert(self.entries()[li as int][p2 as int] == old(self).entries()[li as int][p2 as int]);
                    }
                }
            }
        }
    }

    /// The number of located ids.
    /// The number of lists.
    pub fn list_count(&self) -> (r: usize)
        ensures
            r == self.entries().len(),
    {
        proof { self.lemma_entries(); }
        self.lists.len()
    }

    /// The entries of list `li`, in order.
    pub fn list(&self, li: usize) -> (r: &Vec<(VectorId, E)>)
        requires
            li < self.entries().len(),
        ensures
            r@ == self.entries()[li as int],
    {
        proof { self.lemma_entries(); }
        &self.lists[li]
    }

    /// Whether `id` is located in some list.
    pub fn contains(&self, id: VectorId) -> (r: bool)
        ensures
            r == self.located().contains_key(id.0),
    {
        self.locate.contains_key(&id.0)
    }

    pub fn len(&self) -> (r: usize)
        ensures
            r == self.located().len(),
    {
        self.locate.len()
    }

    /// The entry of an id, when located.
    pub fn lookup(&self, id: VectorId) -> (r: Option<&E>)
        requires
            self.well_formed(),
        ensures
            match r {
                Some(e) => self.located().contains_key(id.0) && {
                    let (li, pos) = self.located()[id.0];
                    *e == self.entries()[li as int][pos as int].1
                },
                None => !self.located().contains_key(id.0),
            },
    {
        proof { self.lemma_entries(); }
        match self.locate.get(&id.0) {
            Some(loc) => {
                let (li, pos) = *loc;
                proof {
                    assert(self.located().contains_key(id.0));
                    assert(self.located()[id.0] == (li, pos));
                }
                Some(&self.lists[li][pos].1)
            },
            None => {
                assert(!self.located().contains_key(id.0));
                None
            },
        }
    }

    /// Takes an id out: its entry leaves its list by a swap with the list's
    /// last entry, which is located at the freed slot. Tells whether the id
    /// was located.
    pub fn remove(&mut self, id: VectorId) -> (r: bool)
        requires
            old(self).well_formed(),
        ensures
            final(self).well_formed(),
            r == old(self).located().contains_key(id.0),
            final(self).entries().len() == old(self).entries().len(),
            !r ==> final(self).entries() == old(self).entries() && final(self).located() == old(self).located(),
            r ==> {
                let (li, pos) = old(self).located()[id.0];
                let list = old(self).entries()[li as int];
                let last = list.len() - 1;
                &&& final(self).entries()[li as int] == list.update(pos as int, list[last]).drop_last()
                &&& forall|j: int| 0 <= j < old(self).entries().len() && j != li ==> final(self).entries()[j] == old(self).entries()[j]
                &&& final(self).located() == if pos < last {
                    old(self).located().remove(id.0).insert(raw_id(list[last].0), (li, pos))
                } else {
                    old(self).located().remove(id.0)
                }
            },
            old(self).complete() ==> {
                &&& final(self).complete()
                &&& !final(self).located().contains_key(id.0)
                &&& forall|x: u64| x != id.0 ==> (final(self).located().contains_key(x) == old(self).located().contains_key(x))
            },
    {
        proof { self.lemma_entries(); }
        match self.locate.remove(&id.0) {
            Some(loc) => {
                let (li, pos) = loc;
                proof {
                    assert(old(self).located().contains_key(id.0));
                    assert(old(self).located()[id.0] == (li, pos));
                    assert(self.locate@ == old(self).located().remove(id.0));
                }
                let ghost list0 = self.entries()[li as int];
                let mut list: Vec<(VectorId, E)> = Vec::new();
                std::mem::swap(&mut list, &mut self.lists[li]);
                let last = list.len() - 1;
                list.swap_remove(pos);
                proof {
                    assert(list@ =~= list0.update(pos as int, list0[last as int]).drop_last());
                }
                if pos < list.len() {
                    let moved = list[pos].0.raw();
                    self.locate.insert(moved, (li, pos));
                    assert(self.locate@ == old(self).located().remove(id.0).insert(raw_id(list0[last as int].0), (li, pos)));
                } else {
                    assert(self.locate@ == old(self).located().remove(id.0));
                }
                std::mem::swap(&mut list, &mut self.lists[li]);
                proof {
                    self.lemma_entries();
                    old(self).lemma_entries();
                    assert(self.entries() =~= old(self).entries().update(li as int, list0.update(pos as int, list0[last as int]).drop_last()));
                    assert forall|x: u64| #[trigger] self.located().contains_key(x) implies {
                        let (l2, p2) = self.located()[x];
                        &&& l2 < self.entries().len()
                        &&& p2 < self.entries()[l2 as int].len()
                        &&& raw_id(self.entries()[l2 as int][p2 as int].0) == x
                    } by {
                        let (l2, p2) = self.located()[x];
                        if !(pos < last && x == raw_id(list0[last as int].0)) {
                            let (l1, p1) = old(self).located()[x];
                            assert(l1 == l2 && p1 == p2);
                            if l2 == li {
                                if p2 == last {
                                    assert(raw_id(list0[last as int].0) == x);
                                } else if p2 == pos {
                                    assert(raw_id(list0[pos as int].0) == id.0);
                                }
                            }
                        }
                    }
                    if old(self).complete() {
                        assert(raw_id(list0[pos as int].0) == id.0);
                        assert(self.entries() == old(self).entries().update(li as int, list0.update(pos as int, list0[last as int]).drop_last()));
                        lemma_remove_complete(old(self).entries(), old(self).located(), id, self.entries(), self.located());
                    }
                }
                true
            },
            None => {
                assert(!old(self).located().contains_key(id.0));
                false
            },
        }
    }

    /// Locates every entry anew, list by list and slot by slot (a later
    /// entry of the same id wins).
    pub fn rebuild_locate(&mut self)
        ensures
            final(self).well_formed(),
            final(self).entries() == old(self).entries(),
            forall|li: int, pos: int|
                0 <= li < final(self).entries().len() && 0 <= pos < final(self).entries()[li].len()
                    ==> final(self).located().contains_key(#[trigger] raw_id(final(self).entries()[li][pos].0)),
    {
        self.locate.clear();
        proof { self.lemma_entries(); }
        let n = self.lists.len();
        let mut li: usize = 0;
        while li < n
            invariant
                n == self.entries().len(),
                self.entries() == old(self).entries(),
                li <= n,
                self.well_formed(),
                forall|a: int, p: int|
                    0 <= a < li && 0 <= p < self.entries()[a].len() ==> self.located().contains_key(
                        #[trigger] raw_id(self.entries()[a][p].0),
                    ),
            decreases n - li,
        {
            proof { self.lemma_entries(); }
            let m = self.lists[li].len();
            let mut pos: usize = 0;
            while pos < m
                invariant
                    n == self.entries().len(),
                    self.entries() == old(self).entries(),
                    li < n,
                    m == self.entries()[li as int].len(),
                    pos <= m,
                    self.well_formed(),
                    forall|a: int, p: int|
                        0 <= a < li && 0 <= p < self.entries()[a].len() ==> self.located().contains_key(
                            #[trigger] raw_id(self.entries()[a][p].0),
                        ),
                    forall|p: int| 0 <= p < pos ==> self.located().contains_key(#[trigger] raw_id(self.entries()[li as int][p].0)),
                decreases m - pos,
            {
                proof { self.lemma_entries(); }
                let id = self.lists[li][pos].0.raw();
                let ghost before = self.located();
                self.locate.insert(id, (li, pos));
                proof {
                    self.lemma_entries();
                    assert(self.located() == before.insert(id, (li, pos)));
                    assert forall|x: u64| #[trigger] self.located().contains_key(x) implies {
                        let (l2, p2) = self.located()[x];
                        &&& l2 < self.entries().len()
                        &&& p2 < self.entries()[l2 as int].len()
                        &&& raw_id(self.entries()[l2 as int][p2 as int].0) == x
                    } by {
                        if x != id {
                            assert(before.contains_key(x));
                        }
                    }
                }
                pos = pos + 1;
            }
            li = li + 1;
        }
    }
}

} // verus!
