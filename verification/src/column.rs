//! A column: the vertical stack of vectors stored at one fractal cell, with
//! their quantized payloads.

use vstd::prelude::*;
use crate::grid::{CellCoord, ColumnPath};
use crate::quant::QuantTier;
use crate::text::{
    lemma_split_colon_nonempty, parse_unsigned, parse_unsigned_chars, split_colon,
    split_colon_chars, str_chars,
};
use crate::types::VectorId;

verus! {

/// A vertical stack of vectors at one fractal cell: their ids and, in the
/// same order, their payloads quantized at the column's tier.
#[derive(Debug)]
pub struct ColumnStack {
    pub path: ColumnPath,
    pub ids: Vec<VectorId>,
    pub quant_tier: QuantTier,
    pub quantized: Vec<Vec<u8>>,
}

/// A number read from a piece of a key, or 0 when the piece is missing or
/// does not read.
pub open spec fn piece_or_zero(parts: Seq<Seq<char>>, i: int, max: nat) -> nat {
    if i < parts.len() {
        match parse_unsigned(parts[i], max) {
            Some(v) => v,
            None => 0,
        }
    } else {
        0
    }
}

/// The cell a persisted column key names: the first three colon-separated
/// pieces read as layer, x and y, each 0 when missing or unreadable.
pub open spec fn persisted_cell(key: Seq<char>) -> CellCoord {
    let parts = split_colon(key);
    CellCoord {
        layer: piece_or_zero(parts, 0, 255) as u8,
        x: piece_or_zero(parts, 1, 65535) as u16,
        y: piece_or_zero(parts, 2, 65535) as u16,
    }
}

fn piece(parts: &Vec<Vec<char>>, i: usize, max: u64) -> (r: u64)
    ensures
        r == piece_or_zero(parts@.map_values(|p: Vec<char>| p@), i as int, max as nat),
{
    let ghost ps = parts@.map_values(|p: Vec<char>| p@);
    if i < parts.len() {
        assert(ps[i as int] == parts@[i as int]@);
        match parse_unsigned_chars(&parts[i], max) {
            Some(v) => v,
            None => 0,
        }
    } else {
        0
    }
}

/// The first position holding `id` (meaningful when `id` occurs).
pub open spec fn first_index(s: Seq<VectorId>, id: VectorId) -> int {
    choose|p: int| 0 <= p < s.len() && s[p] == id && forall|j: int| 0 <= j < p ==> s[j] != id
}

/// When `id` occurs, `first_index` is its first position.
pub proof fn lemma_first_index(s: Seq<VectorId>, id: VectorId)
    requires
        s.contains(id),
    ensures
        0 <= first_index(s, id) < s.len(),
        s[first_index(s, id)] == id,
        forall|j: int| 0 <= j < first_index(s, id) ==> s[j] != id,
    decreases s.len(),
{
    let init = s.drop_last();
    if init.contains(id) {
        lemma_first_index(init, id);
        let p = first_index(init, id);
        assert(s[p] == init[p]);
        assert forall|j: int| 0 <= j < p implies s[j] != id by {
            assert(s[j] == init[j]);
        }
    } else {
        let p = s.len() - 1;
        assert(s[p] == id) by {
            let k = choose|k: int| 0 <= k < s.len() && s[k] == id;
            if k < p {
                assert(init[k] == s[k]);
            }
        }
        assert forall|j: int| 0 <= j < p implies s[j] != id by {
            assert(init[j] == s[j]);
        }
    }
}

impl ColumnStack {
    /// Every id has a payload: there are at least as many payloads as ids.
    pub open spec fn covered(&self) -> bool {
        self.ids@.len() <= self.quantized@.len()
    }

    /// An empty column at `path`, quantized at `quant_tier`.
    pub fn new(path: ColumnPath, quant_tier: QuantTier) -> (r: Self)
        ensures
            r.path == path,
            r.quant_tier == quant_tier,
            r.ids@.len() == 0,
            r.quantized@.len() == 0,
    {
        ColumnStack { path, ids: Vec::new(), quant_tier, quantized: Vec::new() }
    }

    /// A column read back from storage: the cell comes from the key
    /// `layer:x:y` (a piece missing or unreadable counts as 0).
    pub fn from_persisted(
        path_key: &str,
        ids: Vec<VectorId>,
        quantized: Vec<Vec<u8>>,
        tier: QuantTier,
    ) -> (r: Self)
        ensures
            r.path.0@ == seq![persisted_cell(path_key@)],
            r.ids@ == ids@,
            r.quantized@ == quantized@,
            r.quant_tier == tier,
    {
        let chars = str_chars(path_key);
        let parts = split_colon_chars(&chars);
        let ghost ps = parts@.map_values(|p: Vec<char>| p@);
        proof {
            assert(ps =~= split_colon(path_key@));
        }
        let layer = piece(&parts, 0, 255);
        let x = piece(&parts, 1, 65535);
        let y = piece(&parts, 2, 65535);
        let cell = CellCoord { layer: layer as u8, x: x as u16, y: y as u16 };
        ColumnStack { path: ColumnPath::from_cell(cell), ids, quant_tier: tier, quantized }
    }

    /// The number of vectors, as a `u32` (the low 32 bits).
    pub fn height(&self) -> (r: u32)
        ensures
            r == self.ids@.len() as u32,
    {
        self.ids.len() as u32
    }

    /// Adds a vector by its id and its payload at this column's tier.
    pub fn push_encoded(&mut self, id: VectorId, code: Vec<u8>)
        ensures
            final(self).ids@ == old(self).ids@.push(id),
            final(self).quantized@ == old(self).quantized@.push(code),
            final(self).path == old(self).path,
            final(self).quant_tier == old(self).quant_tier,
    {
        self.quantized.push(code);
        self.ids.push(id);
    }

    /// Takes out the first entry holding `id`, with its payload; tells
    /// whether there was one. The payloads must reach past that entry.
    pub fn remove_id(&mut self, id: VectorId) -> (r: bool)
        requires
            old(self).ids@.contains(id) ==> first_index(old(self).ids@, id) < old(self).quantized@.len(),
        ensures
            old(self).covered() ==> final(self).covered(),
            final(self).path == old(self).path,
            final(self).quant_tier == old(self).quant_tier,
            r == old(self).ids@.contains(id),
            !r ==> final(self).ids@ == old(self).ids@ && final(self).quantized@ == old(self).quantized@,
            r ==> {
                let p = first_index(old(self).ids@, id);
                &&& final(self).ids@ == old(self).ids@.remove(p)
                &&& final(self).quantized@ == old(self).quantized@.remove(p)
            },
    {
        let mut i: usize = 0;
        while i < self.ids.len()
            invariant
                *self == *old(self),
                self.ids@.contains(id) ==> first_index(self.ids@, id) < self.quantized@.len(),
                i <= self.ids@.len(),
                forall|j: int| 0 <= j < i ==> self.ids@[j] != id,
            decreases self.ids@.len() - i,
        {
            if self.ids[i] == id {
                proof {
                    assert(self.ids@.contains(id));
                    let s = self.ids@;
                    assert(0 <= i < s.len() && s[i as int] == id && forall|j: int| 0 <= j < i ==> s[j] != id);
                    let p = first_index(s, id);
                    assert(p == i as int) by {
                        if p < i {
                            assert(s[p] != id);
                        } else if p > i {
                            assert(s[i as int] != id);
                        }
                    }
                }
                self.ids.remove(i);
                self.quantized.remove(i);
                return true;
            }
            i = i + 1;
        }
        false
    }

    pub fn is_empty(&self) -> (r: bool)
        ensures
            r == (self.ids@.len() == 0),
    {
        self.ids.len() == 0
    }

    /// The cell the column stands at: the leaf of its path.
    pub fn cell(&self) -> (r: Option<&CellCoord>)
        ensures
            r == (if self.path.0@.len() == 0 {
                None
            } else {
                Some(&self.path.0@.last())
            }),
    {
        self.path.leaf()
    }
}

} // verus!
