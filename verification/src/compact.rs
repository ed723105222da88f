//! Self-compaction of the column map: collapse empty inner columns, promote
//! hot vectors one layer out, demote cold ones one layer in, and split
//! columns that grew too tall. Every move takes the vector out of its
//! source column before it lands in the target: moves, never copies.

use vstd::prelude::*;
use std::collections::HashMap;
use crate::column::{first_index, lemma_first_index, ColumnStack};
use crate::grid::{cell_text, parse_cell_text, CellCoord, ColumnPath};
use crate::quant::{tier_for_layer, QuantTier};
use crate::strmap::StrMap;
use crate::types::VectorId;

verus! {

broadcast use vstd::std_specs::hash::group_hash_axioms;

/// A vector's payload quantized at each tier.
#[derive(Debug)]
pub struct EncodedVector {
    pub u8_code: Vec<u8>,
    pub u16_code: Vec<u8>,
    pub f32_code: Vec<u8>,
}

/// The payload of a vector at a tier.
pub open spec fn code_for(e: EncodedVector, tier: QuantTier) -> Seq<u8> {
    match tier {
        QuantTier::U8 => e.u8_code@,
        QuantTier::U16 => e.u16_code@,
        QuantTier::F32 => e.f32_code@,
    }
}

/// A column as compaction sees it.
pub struct ColumnModel {
    pub path: Seq<CellCoord>,
    pub ids: Seq<VectorId>,
    pub tier: QuantTier,
    pub quantized: Seq<Seq<u8>>,
}

pub open spec fn model_of(c: ColumnStack) -> ColumnModel {
    ColumnModel {
        path: c.path.0@,
        ids: c.ids@,
        tier: c.quant_tier,
        quantized: c.quantized@.map_values(|q: Vec<u8>| q@),
    }
}

/// The columns by key, as models.
pub open spec fn columns_model(m: StrMap<ColumnStack>) -> Map<Seq<char>, ColumnModel> {
    Map::new(|k: Seq<char>| m@.contains_key(k), |k: Seq<char>| model_of(m@[k]))
}

/// Every column has a payload for each of its ids.
pub open spec fn all_covered(m: StrMap<ColumnStack>) -> bool {
    forall|k: Seq<char>| #[trigger] m@.contains_key(k) ==> m@[k].covered()
}

/// A column without its first entry holding `id` (unchanged if none does).
pub open spec fn without_id(c: ColumnModel, id: VectorId) -> ColumnModel {
    if c.ids.contains(id) {
        let p = first_index(c.ids, id);
        ColumnModel { path: c.path, ids: c.ids.remove(p), tier: c.tier, quantized: c.quantized.remove(p) }
    } else {
        c
    }
}

/// A column with `id` and its payload added on top.
pub open spec fn with_id(c: ColumnModel, id: VectorId, code: Seq<u8>) -> ColumnModel {
    ColumnModel { path: c.path, ids: c.ids.push(id), tier: c.tier, quantized: c.quantized.push(code) }
}

/// A new, empty column at a cell.
pub open spec fn fresh_column(cell: CellCoord, tier: QuantTier) -> ColumnModel {
    ColumnModel { path: seq![cell], ids: Seq::empty(), tier, quantized: Seq::empty() }
}

/// One move of vector `mv.0` from the column keyed `mv.1` to the column of
/// cell `mv.2`, and how many vectors it added (0 or 1). Nothing happens to
/// a vector that has no payload. The target column is created (at the tier
/// of its layer) when missing; with `dedupe`, a target that already holds
/// the vector does not get it twice.
pub open spec fn move_step(
    cols: Map<Seq<char>, ColumnModel>,
    vectors: Map<u64, EncodedVector>,
    mv: (VectorId, Seq<char>, CellCoord),
    max_layers: u8,
    dedupe: bool,
) -> (Map<Seq<char>, ColumnModel>, nat) {
    let (id, src, target) = mv;
    if !vectors.contains_key(id.0) {
        (cols, 0)
    } else {
        let c1 = if cols.contains_key(src) {
            cols.insert(src, without_id(cols[src], id))
        } else {
            cols
        };
        let dst = cell_text(target);
        let col = if c1.contains_key(dst) {
            c1[dst]
        } else {
            fresh_column(target, tier_for_layer(target.layer as nat, max_layers as nat))
        };
        if dedupe && col.ids.contains(id) {
            (c1.insert(dst, col), 0)
        } else {
            (c1.insert(dst, with_id(col, id, code_for(vectors[id.0], col.tier))), 1)
        }
    }
}

/// The moves applied in order, with the number of vectors they added.
pub open spec fn moves_result(
    cols: Map<Seq<char>, ColumnModel>,
    vectors: Map<u64, EncodedVector>,
    moves: Seq<(VectorId, Seq<char>, CellCoord)>,
    max_layers: u8,
    dedupe: bool,
) -> (Map<Seq<char>, ColumnModel>, nat)
    decreases moves.len(),
{
    if moves.len() == 0 {
        (cols, 0)
    } else {
        let (c1, e1) = moves_result(cols, vectors, moves.drop_last(), max_layers, dedupe);
        let (c2, e2) = move_step(c1, vectors, moves.last(), max_layers, dedupe);
        (c2, e1 + e2)
    }
}

/// Self-compacting engine: center collapse, hot promote (move), cold
/// demote, height split. `events` counts what it did, saturating at
/// `u64::MAX`.
#[derive(Debug)]
pub struct CompactionEngine {
    pub events: u64,
}

pub open spec fn add_events(events: u64, n: nat) -> u64 {
    if events + n > u64::MAX {
        u64::MAX
    } else {
        (events + n) as u64
    }
}

/// A copy of a payload.
fn copy_code(src: &Vec<u8>) -> (r: Vec<u8>)
    ensures
        r@ == src@,
{
    let mut out: Vec<u8> = Vec::new();
    let mut i: usize = 0;
    while i < src.len()
        invariant
            i <= src@.len(),
            out@ == src@.take(i as int),
        decreases src@.len() - i,
    {
        out.push(src[i]);
        proof {
            assert(src@.take(i + 1) =~= src@.take(i as int).push(src@[i as int]));
        }
        i = i + 1;
    }
    proof {
        assert(src@.take(src@.len() as int) =~= src@);
    }
    out
}

pub(crate) fn code_at(e: &EncodedVector, tier: QuantTier) -> (r: Vec<u8>)
    ensures
        r@ == code_for(*e, tier),
{
    match tier {
        QuantTier::U8 => copy_code(&e.u8_code),
        QuantTier::U16 => copy_code(&e.u16_code),
        QuantTier::F32 => copy_code(&e.f32_code),
    }
}

pub(crate) fn ids_contain(ids: &Vec<VectorId>, id: VectorId) -> (r: bool)
    ensures
        r == ids@.contains(id),
{
    let mut i: usize = 0;
    while i < ids.len()
        invariant
            i <= ids@.len(),
            forall|j: int| 0 <= j < i ==> ids@[j] != id,
        decreases ids@.len() - i,
    {
        if ids[i] == id {
            assert(ids@[i as int] == id);
            return true;
        }
        i = i + 1;
    }
    false
}

/// An empty column standing in while the real one is out of the map.
pub(crate) fn vacant_column() -> (r: ColumnStack)
    ensures
        r.covered(),
        r.path.0@.len() == 0,
        r.ids@.len() == 0,
        r.quantized@.len() == 0,
        r.quant_tier == QuantTier::U8,
{
    ColumnStack::new(ColumnPath(Vec::new()), QuantTier::U8)
}

pub(crate) proof fn lemma_model_push(c: ColumnStack, d: ColumnStack, id: VectorId, code: Vec<u8>)
    requires
        d.ids@ == c.ids@.push(id),
        d.quantized@ == c.quantized@.push(code),
        d.path == c.path,
        d.quant_tier == c.quant_tier,
    ensures
        model_of(d) == with_id(model_of(c), id, code@),
{
    assert(model_of(d).quantized =~= model_of(c).quantized.push(code@));
}

pub(crate) proof fn lemma_model_remove(c: ColumnStack, d: ColumnStack, id: VectorId)
    requires
        c.covered(),
        d.path == c.path,
        d.quant_tier == c.quant_tier,
        !c.ids@.contains(id) ==> d.ids@ == c.ids@ && d.quantized@ == c.quantized@,
        c.ids@.contains(id) ==> {
            let p = first_index(c.ids@, id);
            &&& d.ids@ == c.ids@.remove(p)
            &&& d.quantized@ == c.quantized@.remove(p)
        },
    ensures
        model_of(d) == without_id(model_of(c), id),
{
    if c.ids@.contains(id) {
        let p = first_index(c.ids@, id);
        lemma_first_index(c.ids@, id);
        assert(model_of(d).quantized =~= model_of(c).quantized.remove(p));
    } else {
        assert(model_of(d).quantized =~= model_of(c).quantized);
    }
}

impl CompactionEngine {
    pub fn new() -> (r: Self)
        ensures
            r.events == 0,
    {
        CompactionEngine { events: 0 }
    }

    /// One move (see `move_step`).
    fn apply_move(
        &mut self,
        columns: &mut StrMap<ColumnStack>,
        vectors: &HashMap<u64, EncodedVector>,
        id: VectorId,
        src_key: &str,
        target: CellCoord,
        max_layers: u8,
        dedupe: bool,
    )
        requires
            all_covered(*old(columns)),
        ensures
            all_covered(*final(columns)),
            ({
                let (c, n) = move_step(
                    columns_model(*old(columns)),
                    vectors@,
                    (id, src_key@, target),
                    max_layers,
                    dedupe,
                );
                &&& columns_model(*final(columns)) == c
                &&& final(self).events == add_events(old(self).events, n)
            }),
    {
        let ghost cols0 = columns_model(*columns);
        let enc = match vectors.get(&id.0) {
            Some(e) => e,
            None => {
                return;
            },
        };
        match columns.find(src_key) {
            Some(i) => {
                let mut col = columns.replace_at(i, vacant_column());
                let ghost c0 = col;
                proof {
                    if col.ids@.contains(id) {
                        lemma_first_index(col.ids@, id);
                    }
                }
                col.remove_id(id);
                proof { lemma_model_remove(c0, col, id); }
                columns.replace_at(i, col);
            },
            None => {},
        }
        let ghost cols1 = columns_model(*columns);
        assert(cols1 =~= if cols0.contains_key(src_key@) {
            cols0.insert(src_key@, without_id(cols0[src_key@], id))
        } else {
            cols0
        });
        let dst_key = target.to_string();
        let found = columns.find(dst_key.as_str());
        let mut col = match found {
            Some(i) => {
                let c = columns.replace_at(i, vacant_column());
                assert(model_of(c) == cols1[dst_key@]);
                c
            },
            None => {
                let c = ColumnStack::new(
                    ColumnPath::from_cell(target),
                    QuantTier::for_layer(target.layer, max_layers),
                );
                assert(model_of(c).path =~= seq![target]);
                assert(model_of(c).quantized =~= Seq::<Seq<u8>>::empty());
                assert(model_of(c).ids =~= Seq::<VectorId>::empty());
                assert(model_of(c) == fresh_column(
                    target,
                    tier_for_layer(target.layer as nat, max_layers as nat),
                ));
                c
            },
        };
        let ghost c0 = col;
        let pushed = if dedupe && ids_contain(&col.ids, id) {
            false
        } else {
            let code = code_at(enc, col.quant_tier);
            let ghost code_v = code;
            col.push_encoded(id, code);
            proof { lemma_model_push(c0, col, id, code_v); }
            true
        };
        match found {
            Some(i) => {
                columns.replace_at(i, col);
            },
            None => {
                columns.insert(dst_key, col);
            },
        }
        if pushed {
            self.events = self.events.saturating_add(1);
        }
        proof {
            let (c, n) = move_step(cols0, vectors@, (id, src_key@, target), max_layers, dedupe);
            assert(columns_model(*columns) =~= c);
        }
    }
}

proof fn lemma_add_events(e: u64, a: nat, b: nat)
    ensures
        add_events(add_events(e, a), b) == add_events(e, a + b),
{
}

/// `k` is one of the listed keys.
pub open spec fn key_listed(keys: Seq<String>, k: Seq<char>) -> bool {
    exists|i: int| 0 <= i < keys.len() && #[trigger] keys[i]@ == k
}

/// The move compaction plans for one column: with `promote`, a listed (hot)
/// column past the outermost layer sends its newest vector one layer out;
/// otherwise a listed (cold) column with a layer inside it sends its oldest
/// vector one layer in.
pub open spec fn planned_move(
    k: Seq<char>,
    c: ColumnStack,
    keys: Seq<String>,
    max_layers: u8,
    promote: bool,
) -> Option<(VectorId, Seq<char>, CellCoord)> {
    match parse_cell_text(k) {
        Some(cell) => if promote {
            if key_listed(keys, k) && cell.layer > 0 && c.ids@.len() > 0 {
                Some((c.ids@.last(), k, CellCoord { layer: (cell.layer - 1) as u8, x: cell.x, y: cell.y }))
            } else {
                None
            }
        } else {
            if key_listed(keys, k) && cell.layer + 1 < max_layers && c.ids@.len() > 0 {
                Some((c.ids@[0], k, CellCoord { layer: (cell.layer + 1) as u8, x: cell.x, y: cell.y }))
            } else {
                None
            }
        },
        None => None,
    }
}

/// The planned moves of the columns, in the columns' order.
pub open spec fn planned_moves(
    pairs: Seq<(String, ColumnStack)>,
    keys: Seq<String>,
    max_layers: u8,
    promote: bool,
) -> Seq<(VectorId, Seq<char>, CellCoord)>
    decreases pairs.len(),
{
    if pairs.len() == 0 {
        Seq::empty()
    } else {
        let rest = planned_moves(pairs.drop_last(), keys, max_layers, promote);
        match planned_move(pairs.last().0@, pairs.last().1, keys, max_layers, promote) {
            Some(m) => rest.push(m),
            None => rest,
        }
    }
}

pub open spec fn moves_view(moves: Seq<(VectorId, String, CellCoord)>) -> Seq<
    (VectorId, Seq<char>, CellCoord),
> {
    moves.map_values(|m: (VectorId, String, CellCoord)| (m.0, m.1@, m.2))
}

fn listed(keys: &Vec<String>, k: &str) -> (r: bool)
    ensures
        r == key_listed(keys@, k@),
{
    let mut i: usize = 0;
    while i < keys.len()
        invariant
            i <= keys@.len(),
            forall|j: int| 0 <= j < i ==> keys@[j]@ != k@,
        decreases keys@.len() - i,
    {
        if crate::text::str_eq(keys[i].as_str(), k) {
            return true;
        }
        i = i + 1;
    }
    false
}

/// Plans the moves of a promote (`promote`) or demote pass.
fn plan_moves(columns: &StrMap<ColumnStack>, keys: &Vec<String>, max_layers: u8, promote: bool) -> (r: Vec<
    (VectorId, String, CellCoord),
>)
    ensures
        moves_view(r@) == planned_moves(columns.pairs(), keys@, max_layers, promote),
        crate::strmap::keys_distinct(columns.pairs()),
{
    let n = columns.len();
    let ghost ps = columns.pairs();
    let mut out: Vec<(VectorId, String, CellCoord)> = Vec::new();
    let mut i: usize = 0;
    while i < n
        invariant
            n == ps.len(),
            ps == columns.pairs(),
            i <= n,
            moves_view(out@) == planned_moves(ps.take(i as int), keys@, max_layers, promote),
        decreases n - i,
    {
        let k = columns.key_at(i);
        let c = columns.value_at(i);
        proof {
            assert(ps.take(i + 1).drop_last() =~= ps.take(i as int));
            assert(ps.take(i + 1).last() == ps[i as int]);
        }
        match CellCoord::parse(k.as_str()) {
            Ok(cell) => {
                if promote {
                    if listed(keys, k.as_str()) && cell.layer > 0 && c.ids.len() > 0 {
                        let id = c.ids[c.ids.len() - 1];
                        out.push((id, k.clone(), CellCoord { layer: cell.layer - 1, x: cell.x, y: cell.y }));
                        assert(moves_view(out@) =~= planned_moves(ps.take(i + 1), keys@, max_layers, promote));
                    }
                } else {
                    if listed(keys, k.as_str()) && (cell.layer as u16) + 1 < max_layers as u16 && c.ids.len() > 0 {
                        let id = c.ids[0];
                        out.push((id, k.clone(), CellCoord { layer: cell.layer + 1, x: cell.x, y: cell.y }));
                        assert(moves_view(out@) =~= planned_moves(ps.take(i + 1), keys@, max_layers, promote));
                    }
                }
            },
            Err(_) => {},
        }
        i = i + 1;
    }
    proof {
        assert(ps.take(n as int) =~= ps);
    }
    out
}

impl CompactionEngine {
    /// The moves applied in order (see `moves_result`).
    fn apply_moves(
        &mut self,
        columns: &mut StrMap<ColumnStack>,
        vectors: &HashMap<u64, EncodedVector>,
        moves: &Vec<(VectorId, String, CellCoord)>,
        max_layers: u8,
        dedupe: bool,
    )
        requires
            all_covered(*old(columns)),
        ensures
            all_covered(*final(columns)),
            ({
                let (c, n) = moves_result(
                    columns_model(*old(columns)),
                    vectors@,
                    moves_view(moves@),
                    max_layers,
                    dedupe,
                );
                &&& columns_model(*final(columns)) == c
                &&& final(self).events == add_events(old(self).events, n)
            }),
    {
        let ghost mv = moves_view(moves@);
        let mut i: usize = 0;
        while i < moves.len()
            invariant
                i <= moves@.len(),
                mv == moves_view(moves@),
                all_covered(*columns),
                ({
                    let (c, n) = moves_result(
                        columns_model(*old(columns)),
                        vectors@,
                        mv.take(i as int),
                        max_layers,
                        dedupe,
                    );
                    &&& columns_model(*columns) == c
                    &&& self.events == add_events(old(self).events, n)
                }),
            decreases moves@.len() - i,
        {
            let (id, src, target) = &moves[i];
            let ghost before = self.events;
            let ghost (c_prev, n_prev) = moves_result(
                columns_model(*old(columns)),
                vectors@,
                mv.take(i as int),
                max_layers,
                dedupe,
            );
            self.apply_move(columns, vectors, *id, src.as_str(), *target, max_layers, dedupe);
            proof {
                assert(mv.take(i + 1).drop_last() =~= mv.take(i as int));
                assert(mv.take(i + 1).last() == (*id, src@, *target));
                let (c2, n2) = move_step(c_prev, vectors@, (*id, src@, *target), max_layers, dedupe);
                lemma_add_events(old(self).events, n_prev, n2);
            }
            i = i + 1;
        }
        proof {
            assert(mv.take(moves@.len() as int) =~= mv);
        }
    }

    /// Promotes hot columns: each listed column past the outermost layer
    /// moves its newest vector to the same cell one layer out.
    pub fn promote_hot(
        &mut self,
        columns: &mut StrMap<ColumnStack>,
        vectors: &HashMap<u64, EncodedVector>,
        hot_keys: &Vec<String>,
        max_layers: u8,
    )
        requires
            all_covered(*old(columns)),
        ensures
            all_covered(*final(columns)),
            ({
                let (c, n) = moves_result(
                    columns_model(*old(columns)),
                    vectors@,
                    planned_moves(old(columns).pairs(), hot_keys@, max_layers, true),
                    max_layers,
                    true,
                );
                &&& columns_model(*final(columns)) == c
                &&& final(self).events == add_events(old(self).events, n)
            }),
            ids_unique(columns_model(*old(columns))) ==> ids_unique(columns_model(*final(columns))),
            ids_unique(columns_model(*old(columns))) ==> forall|x: VectorId|
                held(columns_model(*final(columns)), x) <==> held(columns_model(*old(columns)), x),
    {
        let moves = plan_moves(columns, hot_keys, max_layers, true);
        proof {
            if ids_unique(columns_model(*columns)) {
                law_planned_moves_keep_ids(*columns, vectors@, hot_keys@, max_layers, true, true);
            }
        }
        self.apply_moves(columns, vectors, &moves, max_layers, true);
    }

    /// Demotes cold columns: each listed column with a layer inside it moves
    /// its oldest vector to the same cell one layer in.
    pub fn demote_cold(
        &mut self,
        columns: &mut StrMap<ColumnStack>,
        vectors: &HashMap<u64, EncodedVector>,
        cold_keys: &Vec<String>,
        max_layers: u8,
    )
        requires
            all_covered(*old(columns)),
        ensures
            all_covered(*final(columns)),
            ({
                let (c, n) = moves_result(
                    columns_model(*old(columns)),
                    vectors@,
                    planned_moves(old(columns).pairs(), cold_keys@, max_layers, false),
                    max_layers,
                    false,
                );
                &&& columns_model(*final(columns)) == c
                &&& final(self).events == add_events(old(self).events, n)
            }),
            ids_unique(columns_model(*old(columns))) ==> ids_unique(columns_model(*final(columns))),
            ids_unique(columns_model(*old(columns))) ==> forall|x: VectorId|
                held(columns_model(*final(columns)), x) <==> held(columns_model(*old(columns)), x),
    {
        let moves = plan_moves(columns, cold_keys, max_layers, false);
        proof {
            if ids_unique(columns_model(*columns)) {
                law_planned_moves_keep_ids(*columns, vectors@, cold_keys@, max_layers, false, false);
            }
        }
        self.apply_moves(columns, vectors, &moves, max_layers, false);
    }
}

/// The columns taller than `threshold` with a layer inside theirs, in the
/// columns' order, with their cells.
pub open spec fn planned_tall(pairs: Seq<(String, ColumnStack)>, threshold: u32, max_layers: u8) -> Seq<
    (Seq<char>, CellCoord),
>
    decreases pairs.len(),
{
    if pairs.len() == 0 {
        Seq::empty()
    } else {
        let rest = planned_tall(pairs.drop_last(), threshold, max_layers);
        let (k, c) = pairs.last();
        match parse_cell_text(k@) {
            Some(cell) => if (c.ids@.len() as u32) > threshold && cell.layer + 1 < max_layers {
                rest.push((k@, cell))
            } else {
                rest
            },
            None => rest,
        }
    }
}

/// Where a tall column sends half its vectors: the child cell recorded for
/// its key, else the next cell along x (saturating).
pub open spec fn split_target(children: Map<Seq<char>, CellCoord>, k: Seq<char>, cell: CellCoord) -> CellCoord {
    if children.contains_key(k) {
        children[k]
    } else {
        CellCoord {
            layer: cell.layer,
            x: if cell.x == u16::MAX { u16::MAX } else { (cell.x + 1) as u16 },
            y: cell.y,
        }
    }
}

/// Splitting one tall column: a column (still) holding two vectors or more
/// moves its upper half, in order, to its split target.
pub open spec fn split_step(
    cols: Map<Seq<char>, ColumnModel>,
    vectors: Map<u64, EncodedVector>,
    children: Map<Seq<char>, CellCoord>,
    tall: (Seq<char>, CellCoord),
    max_layers: u8,
) -> (Map<Seq<char>, ColumnModel>, nat) {
    let (k, cell) = tall;
    if !cols.contains_key(k) || cols[k].ids.len() < 2 {
        (cols, 0)
    } else {
        let ids = cols[k].ids;
        let mid = ids.len() / 2;
        let target = split_target(children, k, cell);
        let moves = Seq::new(
            (ids.len() - mid) as nat,
            |j: int| (ids[mid + j], k, target),
        );
        moves_result(cols, vectors, moves, max_layers, true)
    }
}

/// The tall columns split in order, with the number of vectors moved.
pub open spec fn splits_result(
    cols: Map<Seq<char>, ColumnModel>,
    vectors: Map<u64, EncodedVector>,
    children: Map<Seq<char>, CellCoord>,
    tall: Seq<(Seq<char>, CellCoord)>,
    max_layers: u8,
) -> (Map<Seq<char>, ColumnModel>, nat)
    decreases tall.len(),
{
    if tall.len() == 0 {
        (cols, 0)
    } else {
        let (c1, e1) = splits_result(cols, vectors, children, tall.drop_last(), max_layers);
        let (c2, e2) = split_step(c1, vectors, children, tall.last(), max_layers);
        (c2, e1 + e2)
    }
}

fn plan_tall(columns: &StrMap<ColumnStack>, threshold: u32, max_layers: u8) -> (r: Vec<(String, CellCoord)>)
    ensures
        r@.map_values(|t: (String, CellCoord)| (t.0@, t.1)) == planned_tall(columns.pairs(), threshold, max_layers),
{
    let n = columns.len();
    let ghost ps = columns.pairs();
    let mut out: Vec<(String, CellCoord)> = Vec::new();
    let mut i: usize = 0;
    while i < n
        invariant
            n == ps.len(),
            ps == columns.pairs(),
            i <= n,
            out@.map_values(|t: (String, CellCoord)| (t.0@, t.1)) == planned_tall(ps.take(i as int), threshold, max_layers),
        decreases n - i,
    {
        let k = columns.key_at(i);
        let c = columns.value_at(i);
        proof {
            assert(ps.take(i + 1).drop_last() =~= ps.take(i as int));
            assert(ps.take(i + 1).last() == ps[i as int]);
        }
        match CellCoord::parse(k.as_str()) {
            Ok(cell) => {
                if c.height() > threshold && (cell.layer as u16) + 1 < max_layers as u16 {
                    out.push((k.clone(), cell));
                    assert(out@.map_values(|t: (String, CellCoord)| (t.0@, t.1)) =~= planned_tall(ps.take(i + 1), threshold, max_layers));
                }
            },
            Err(_) => {},
        }
        i = i + 1;
    }
    proof {
        assert(ps.take(n as int) =~= ps);
    }
    out
}

/// The moves of the upper half of `ids`, from index `mid` on, in order.
fn upper_half_moves(ids: &Vec<VectorId>, mid: usize, src_key: &String, target: CellCoord) -> (r: Vec<
    (VectorId, String, CellCoord),
>)
    requires
        mid <= ids@.len(),
    ensures
        moves_view(r@) == Seq::new(
            (ids@.len() - mid) as nat,
            |j: int| (ids@[mid + j], src_key@, target),
        ),
{
    let ghost mvs = Seq::new((ids@.len() - mid) as nat, |j: int| (ids@[mid + j], src_key@, target));
    let mut moves: Vec<(VectorId, String, CellCoord)> = Vec::new();
    let mut j: usize = mid;
    while j < ids.len()
        invariant
            mid <= j <= ids@.len(),
            moves@.len() == j - mid,
            moves_view(moves@) == mvs.take(j - mid),
            mvs == Seq::new((ids@.len() - mid) as nat, |j: int| (ids@[mid + j], src_key@, target)),
        decreases ids@.len() - j,
    {
        let ghost before = moves@;
        let key = src_key.clone();
        moves.push((ids[j], key, target));
        proof {
            assert(mvs[j - mid] == (ids@[j as int], src_key@, target));
            assert forall|q: int| 0 <= q < j + 1 - mid implies #[trigger] moves_view(moves@)[q] == mvs.take(j + 1 - mid)[q] by {
                if q < j - mid {
                    assert(moves@[q] == before[q]);
                    assert(moves_view(before)[q] == mvs.take(j - mid)[q]);
                } else {
                    assert(moves@[q] == (ids@[j as int], key, target));
                }
            }
            assert(moves_view(moves@) =~= mvs.take(j + 1 - mid));
        }
        j = j + 1;
    }
    proof {
        assert(mvs.take(ids@.len() - mid) =~= mvs);
    }
    moves
}

impl CompactionEngine {
    /// Splits one tall column (see `split_step`).
    fn split_one(
        &mut self,
        columns: &mut StrMap<ColumnStack>,
        vectors: &HashMap<u64, EncodedVector>,
        children: &StrMap<CellCoord>,
        src_key: &String,
        cell: CellCoord,
        max_layers: u8,
    )
        requires
            all_covered(*old(columns)),
        ensures
            all_covered(*final(columns)),
            ({
                let (c, n) = split_step(
                    columns_model(*old(columns)),
                    vectors@,
                    children@,
                    (src_key@, cell),
                    max_layers,
                );
                &&& columns_model(*final(columns)) == c
                &&& final(self).events == add_events(old(self).events, n)
            }),
    {
        let ids: Vec<VectorId> = match columns.get(src_key.as_str()) {
            Some(src) => {
                let mut ids: Vec<VectorId> = Vec::new();
                let mut j: usize = 0;
                while j < src.ids.len()
                    invariant
                        j <= src.ids@.len(),
                        ids@ == src.ids@.take(j as int),
                    decreases src.ids@.len() - j,
                {
                    ids.push(src.ids[j]);
                    proof {
                        assert(src.ids@.take(j + 1) =~= src.ids@.take(j as int).push(src.ids@[j as int]));
                    }
                    j = j + 1;
                }
                proof {
                    assert(src.ids@.take(src.ids@.len() as int) =~= src.ids@);
                }
                ids
            },
            None => {
                return;
            },
        };
        if ids.len() < 2 {
            return;
        }
        let mid = ids.len() / 2;
        let target = match children.get(src_key.as_str()) {
            Some(c) => *c,
            None => CellCoord { layer: cell.layer, x: cell.x.saturating_add(1), y: cell.y },
        };
        let moves = upper_half_moves(&ids, mid, src_key, target);
        self.apply_moves(columns, vectors, &moves, max_layers, true);
    }

    /// Splits tall columns: each column taller than `threshold` (with a layer
    /// inside its own) moves the upper half of its vectors to its split
    /// target: the child cell recorded in `children` for its key, else the
    /// next cell along x.
    pub fn split_tall_columns(
        &mut self,
        columns: &mut StrMap<ColumnStack>,
        vectors: &HashMap<u64, EncodedVector>,
        children: &StrMap<CellCoord>,
        threshold: u32,
        max_layers: u8,
    )
        requires
            all_covered(*old(columns)),
        ensures
            all_covered(*final(columns)),
            ({
                let (c, n) = splits_result(
                    columns_model(*old(columns)),
                    vectors@,
                    children@,
                    planned_tall(old(columns).pairs(), threshold, max_layers),
                    max_layers,
                );
                &&& columns_model(*final(columns)) == c
                &&& final(self).events == add_events(old(self).events, n)
            }),
            ids_unique(columns_model(*old(columns))) ==> ids_unique(columns_model(*final(columns))),
            ids_unique(columns_model(*old(columns))) ==> forall|x: VectorId|
                held(columns_model(*final(columns)), x) <==> held(columns_model(*old(columns)), x),
    {
        proof {
            if ids_unique(columns_model(*columns)) {
                law_splits_keep_ids(
                    columns_model(*columns),
                    vectors@,
                    children@,
                    planned_tall(columns.pairs(), threshold, max_layers),
                    max_layers,
                );
            }
        }
        let tall = plan_tall(columns, threshold, max_layers);
        let ghost tv = tall@.map_values(|t: (String, CellCoord)| (t.0@, t.1));
        let mut t: usize = 0;
        while t < tall.len()
            invariant
                t <= tall@.len(),
                tv == tall@.map_values(|t: (String, CellCoord)| (t.0@, t.1)),
                all_covered(*columns),
                ({
                    let (c, n) = splits_result(
                        columns_model(*old(columns)),
                        vectors@,
                        children@,
                        tv.take(t as int),
                        max_layers,
                    );
                    &&& columns_model(*columns) == c
                    &&& self.events == add_events(old(self).events, n)
                }),
            decreases tall@.len() - t,
        {
            let ghost (c_prev, n_prev) = splits_result(
                columns_model(*old(columns)),
                vectors@,
                children@,
                tv.take(t as int),
                max_layers,
            );
            self.split_one(columns, vectors, children, &tall[t].0, tall[t].1, max_layers);
            proof {
                assert(tv.take(t + 1).drop_last() =~= tv.take(t as int));
                assert(tv.take(t + 1).last() == (tall@[t as int].0@, tall@[t as int].1));
                let (c2, n2) = split_step(c_prev, vectors@, children@, (tall@[t as int].0@, tall@[t as int].1), max_layers);
                lemma_add_events(old(self).events, n_prev, n2);
            }
            t = t + 1;
        }
        proof {
            assert(tv.take(tall@.len() as int) =~= tv);
        }
    }
}

/// The innermost layer of a grid of `num_layers` layers (0 for none).
pub open spec fn inner_layer(num_layers: usize) -> u8 {
    if num_layers == 0 {
        0
    } else {
        (num_layers - 1) as u8
    }
}

/// `k` is the key of a cell on `layer`.
pub open spec fn on_layer(k: Seq<char>, layer: u8) -> bool {
    match parse_cell_text(k) {
        Some(c) => c.layer == layer,
        None => false,
    }
}

/// An empty column on `layer`: the ones that collapse.
pub open spec fn collapses(k: Seq<char>, c: ColumnModel, layer: u8) -> bool {
    on_layer(k, layer) && c.ids.len() == 0
}

/// The columns without the empty ones on `layer`.
pub open spec fn collapsed(cols: Map<Seq<char>, ColumnModel>, layer: u8) -> Map<Seq<char>, ColumnModel> {
    Map::new(
        |k: Seq<char>| cols.contains_key(k) && !collapses(k, cols[k], layer),
        |k: Seq<char>| cols[k],
    )
}

/// The keys of the columns that collapse, in the columns' order.
pub open spec fn doomed_keys(pairs: Seq<(String, ColumnStack)>, layer: u8) -> Seq<Seq<char>>
    decreases pairs.len(),
{
    if pairs.len() == 0 {
        Seq::empty()
    } else {
        let rest = doomed_keys(pairs.drop_last(), layer);
        if collapses(pairs.last().0@, model_of(pairs.last().1), layer) {
            rest.push(pairs.last().0@)
        } else {
            rest
        }
    }
}

proof fn lemma_doomed_keys(pairs: Seq<(String, ColumnStack)>, layer: u8)
    requires
        crate::strmap::keys_distinct(pairs),
    ensures
        forall|a: int, b: int|
            0 <= a < b < doomed_keys(pairs, layer).len() ==> doomed_keys(pairs, layer)[a]
                != doomed_keys(pairs, layer)[b],
        forall|k: Seq<char>|
            doomed_keys(pairs, layer).contains(k) <==> exists|i: int|
                0 <= i < pairs.len() && #[trigger] pairs[i].0@ == k && collapses(
                    k,
                    model_of(pairs[i].1),
                    layer,
                ),
    decreases pairs.len(),
{
    if pairs.len() > 0 {
        let init = pairs.drop_last();
        assert(crate::strmap::keys_distinct(init)) by {
            assert forall|a: int, b: int| 0 <= a < b < init.len() implies init[a].0@ != init[b].0@ by {
                assert(init[a] == pairs[a] && init[b] == pairs[b]);
            }
        }
        lemma_doomed_keys(init, layer);
        let rest = doomed_keys(init, layer);
        let d = doomed_keys(pairs, layer);
        let last = pairs.len() - 1;
        assert forall|k: Seq<char>|
            d.contains(k) <==> exists|i: int|
                0 <= i < pairs.len() && #[trigger] pairs[i].0@ == k && collapses(
                    k,
                    model_of(pairs[i].1),
                    layer,
                ) by {
            if d.contains(k) {
                let q = choose|q: int| 0 <= q < d.len() && d[q] == k;
                if q < rest.len() {
                    assert(rest[q] == k);
                    assert(rest.contains(k));
                    let i = choose|i: int|
                        0 <= i < init.len() && #[trigger] init[i].0@ == k && collapses(
                            k,
                            model_of(init[i].1),
                            layer,
                        );
                    assert(pairs[i] == init[i]);
                } else {
                    assert(pairs[last].0@ == k);
                }
            }
            if exists|i: int|
                0 <= i < pairs.len() && #[trigger] pairs[i].0@ == k && collapses(
                    k,
                    model_of(pairs[i].1),
                    layer,
                ) {
                let i = choose|i: int|
                    0 <= i < pairs.len() && #[trigger] pairs[i].0@ == k && collapses(
                        k,
                        model_of(pairs[i].1),
                        layer,
                    );
                if i < last {
                    assert(init[i] == pairs[i]);
                    assert(rest.contains(k));
                    let q = choose|q: int| 0 <= q < rest.len() && rest[q] == k;
                    assert(d[q] == k);
                } else {
                    assert(d[d.len() - 1] == k);
                }
            }
        }
        if collapses(pairs.last().0@, model_of(pairs.last().1), layer) {
            assert(!rest.contains(pairs[last].0@)) by {
                if rest.contains(pairs[last].0@) {
                    let i = choose|i: int|
                        0 <= i < init.len() && #[trigger] init[i].0@ == pairs[last].0@ && collapses(
                            pairs[last].0@,
                            model_of(init[i].1),
                            layer,
                        );
                    assert(init[i] == pairs[i]);
                }
            }
            assert forall|a: int, b: int| 0 <= a < b < d.len() implies d[a] != d[b] by {
                if b == d.len() - 1 {
                    assert(rest[a] == d[a]);
                    assert(rest.contains(d[a]));
                } else {
                    assert(rest[a] == d[a] && rest[b] == d[b]);
                }
            }
        }
    }
}

fn plan_doomed(columns: &StrMap<ColumnStack>, layer: u8) -> (r: Vec<String>)
    ensures
        r@.map_values(|k: String| k@) == doomed_keys(columns.pairs(), layer),
{
    let n = columns.len();
    let ghost ps = columns.pairs();
    let mut out: Vec<String> = Vec::new();
    let mut i: usize = 0;
    while i < n
        invariant
            n == ps.len(),
            ps == columns.pairs(),
            i <= n,
            out@.map_values(|k: String| k@) == doomed_keys(ps.take(i as int), layer),
        decreases n - i,
    {
        let k = columns.key_at(i);
        let c = columns.value_at(i);
        proof {
            assert(ps.take(i + 1).drop_last() =~= ps.take(i as int));
            assert(ps.take(i + 1).last() == ps[i as int]);
        }
        match CellCoord::parse(k.as_str()) {
            Ok(cell) => {
                if cell.layer == layer && c.is_empty() {
                    out.push(k.clone());
                    assert(out@.map_values(|k: String| k@) =~= doomed_keys(ps.take(i + 1), layer));
                }
            },
            Err(_) => {},
        }
        i = i + 1;
    }
    proof {
        assert(ps.take(n as int) =~= ps);
    }
    out
}

/// Whether some column key names a cell on `layer`.
fn any_on_layer(columns: &StrMap<ColumnStack>, layer: u8) -> (r: bool)
    ensures
        r == exists|k: Seq<char>| columns@.contains_key(k) && #[trigger] on_layer(k, layer),
{
    let n = columns.len();
    let ghost ps = columns.pairs();
    let mut i: usize = 0;
    while i < n
        invariant
            n == ps.len(),
            ps == columns.pairs(),
            crate::strmap::keys_distinct(ps),
            i <= n,
            forall|j: int| 0 <= j < i ==> !on_layer(#[trigger] ps[j].0@, layer),
        decreases n - i,
    {
        match CellCoord::parse(columns.key_at(i).as_str()) {
            Ok(cell) => {
                if cell.layer == layer {
                    proof {
                        crate::strmap::lemma_pairs_map_lookup(ps, ps[i as int].0@);
                        assert(crate::strmap::has_key(ps, ps[i as int].0@));
                        assert(on_layer(ps[i as int].0@, layer));
                    }
                    return true;
                }
            },
            Err(_) => {},
        }
        i = i + 1;
    }
    proof {
        assert forall|k: Seq<char>| columns@.contains_key(k) implies !#[trigger] on_layer(k, layer) by {
            crate::strmap::lemma_pairs_map_lookup(ps, k);
            let j = crate::strmap::key_index(ps, k);
            assert(!on_layer(ps[j].0@, layer));
        }
    }
    false
}

impl CompactionEngine {
    /// Collapses the innermost layer: drops its empty columns (one event
    /// each), and counts one more event when no column is left on it
    /// (with more than one layer).
    pub fn collapse_empty_inner(&mut self, num_layers: usize, columns: &mut StrMap<ColumnStack>)
        ensures
            inner_layer(num_layers) == 0 ==> {
                &&& columns_model(*final(columns)) == columns_model(*old(columns))
                &&& final(self).events == old(self).events
            },
            inner_layer(num_layers) != 0 ==> {
                let layer = inner_layer(num_layers);
                let cols = columns_model(*final(columns));
                let gone: nat = (columns_model(*old(columns)).dom().len() - cols.dom().len()) as nat;
                let left_empty: nat = if num_layers > 1 && !exists|k: Seq<char>|
                    cols.contains_key(k) && #[trigger] on_layer(k, layer) {
                    1
                } else {
                    0
                };
                &&& cols == collapsed(columns_model(*old(columns)), layer)
                &&& final(self).events == add_events(old(self).events, gone + left_empty)
            },
            all_covered(*old(columns)) ==> all_covered(*final(columns)),
            ids_unique(columns_model(*old(columns))) ==> ids_unique(columns_model(*final(columns))),
            ids_unique(columns_model(*old(columns))) ==> forall|x: VectorId|
                held(columns_model(*final(columns)), x) <==> held(columns_model(*old(columns)), x),
    {
        proof {
            if ids_unique(columns_model(*columns)) {
                law_collapse_keeps_ids(columns_model(*columns), inner_layer(num_layers));
            }
        }
        let layer = num_layers.saturating_sub(1) as u8;
        if layer == 0 {
            return;
        }
        let ghost cols0 = columns_model(*columns);
        let ghost e0 = self.events;
        let ghost ps = columns.pairs();
        let entry_count = columns.len();
        let key_count = columns.key_count();
        let doomed = plan_doomed(columns, layer);
        let ghost dk = doomed@.map_values(|k: String| k@);
        proof {
            crate::strmap::lemma_pairs_map_len(ps);
            lemma_doomed_keys(ps, layer);
            assert forall|k: Seq<char>|
                #[trigger] dk.contains(k) <==> (cols0.contains_key(k) && collapses(k, cols0[k], layer)) by {
                crate::strmap::lemma_pairs_map_lookup(ps, k);
                if dk.contains(k) {
                    let i = choose|i: int|
                        0 <= i < ps.len() && #[trigger] ps[i].0@ == k && collapses(k, model_of(ps[i].1), layer);
                    assert(crate::strmap::has_key(ps, k));
                    let j = crate::strmap::key_index(ps, k);
                    assert(i == j) by {
                        if i != j {
                            if i < j {
                                assert(ps[i].0@ != ps[j].0@);
                            } else {
                                assert(ps[j].0@ != ps[i].0@);
                            }
                        }
                    }
                }
                if cols0.contains_key(k) && collapses(k, cols0[k], layer) {
                    let j = crate::strmap::key_index(ps, k);
                    assert(0 <= j < ps.len() && ps[j].0@ == k && collapses(k, model_of(ps[j].1), layer));
                }
            }
            assert(columns_model(*columns) =~= Map::new(
                |k: Seq<char>| cols0.contains_key(k) && !dk.take(0).contains(k),
                |k: Seq<char>| cols0[k],
            ));
            assert(cols0.dom() =~= columns@.dom());
        }
        let mut q: usize = 0;
        while q < doomed.len()
            invariant
                q <= doomed@.len(),
                layer == inner_layer(num_layers),
                dk == doomed@.map_values(|k: String| k@),
                forall|a: int, b: int| 0 <= a < b < dk.len() ==> dk[a] != dk[b],
                forall|k: Seq<char>|
                    #[trigger] dk.contains(k) <==> (cols0.contains_key(k) && collapses(k, cols0[k], layer)),
                columns_model(*columns) == Map::new(
                    |k: Seq<char>| cols0.contains_key(k) && !dk.take(q as int).contains(k),
                    |k: Seq<char>| cols0[k],
                ),
                cols0.dom().finite(),
                columns@.dom().finite(),
                columns@.dom().len() == cols0.dom().len() - q,
                self.events == add_events(e0, q as nat),
                all_covered(*old(columns)) ==> all_covered(*columns),
                forall|k: Seq<char>| #[trigger] columns@.contains_key(k) ==> old(columns)@.contains_key(k) && columns@[k] == old(columns)@[k],
            decreases doomed@.len() - q,
        {
            let ghost before = columns_model(*columns);
            proof {
                assert(dk[q as int] == doomed@[q as int]@);
                assert(dk.contains(dk[q as int]));
                let t0 = dk.take(q as int);
                assert(!t0.contains(dk[q as int])) by {
                    if t0.contains(dk[q as int]) {
                        let a = choose|a: int| 0 <= a < t0.len() && t0[a] == dk[q as int];
                        assert(dk[a] == dk[q as int]);
                    }
                }
                assert(cols0.contains_key(dk[q as int]));
                assert(before.contains_key(dk[q as int]));
                assert(columns@.contains_key(dk[q as int]));
            }
            columns.remove(doomed[q].as_str());
            self.events = self.events.saturating_add(1);
            proof {
                lemma_add_events(e0, q as nat, 1);
                let t1 = dk.take(q + 1);
                let t0 = dk.take(q as int);
                assert forall|k: Seq<char>| t1.contains(k) <==> (t0.contains(k) || k == dk[q as int]) by {
                    if t1.contains(k) {
                        let a = choose|a: int| 0 <= a < t1.len() && t1[a] == k;
                        if a < q {
                            assert(t0[a] == k);
                        }
                    }
                    if t0.contains(k) {
                        let a = choose|a: int| 0 <= a < t0.len() && t0[a] == k;
                        assert(t1[a] == k);
                    }
                    if k == dk[q as int] {
                        assert(t1[q as int] == k);
                    }
                }
                assert(columns_model(*columns) =~= before.remove(dk[q as int]));
                assert(columns_model(*columns) =~= Map::new(
                    |k: Seq<char>| cols0.contains_key(k) && !dk.take(q + 1).contains(k),
                    |k: Seq<char>| cols0[k],
                ));
            }
            q = q + 1;
        }
        proof {
            assert(dk.take(dk.len() as int) =~= dk);
            assert(columns_model(*columns) =~= collapsed(cols0, layer));
            assert(columns_model(*columns).dom() =~= columns@.dom());
        }
        if num_layers > 1 && !any_on_layer(columns, layer) {
            self.events = self.events.saturating_add(1);
            proof { lemma_add_events(e0, q as nat, 1); }
        }
    }
}

/// No id occurs twice.
pub open spec fn ids_distinct(ids: Seq<VectorId>) -> bool {
    forall|a: int, b: int| 0 <= a < b < ids.len() ==> ids[a] != ids[b]
}

/// A move is a move, never a copy: when the source column holds the vector
/// once and the target is another column, afterwards the source no longer
/// holds it and the target does.
pub proof fn law_move_not_copy(
    cols: Map<Seq<char>, ColumnModel>,
    vectors: Map<u64, EncodedVector>,
    id: VectorId,
    src: Seq<char>,
    target: CellCoord,
    max_layers: u8,
    dedupe: bool,
)
    requires
        vectors.contains_key(id.0),
        cols.contains_key(src),
        cols[src].ids.contains(id),
        ids_distinct(cols[src].ids),
        cell_text(target) != src,
    ensures
        ({
            let (c, n) = move_step(cols, vectors, (id, src, target), max_layers, dedupe);
            &&& c.contains_key(src)
            &&& !c[src].ids.contains(id)
            &&& c.contains_key(cell_text(target))
            &&& c[cell_text(target)].ids.contains(id)
        }),
{
    let ids = cols[src].ids;
    lemma_first_index(ids, id);
    let p = first_index(ids, id);
    let rest = ids.remove(p);
    assert(!rest.contains(id)) by {
        if rest.contains(id) {
            let k = choose|k: int| 0 <= k < rest.len() && rest[k] == id;
            if k < p {
                assert(ids[k] == id);
            } else {
                assert(ids[k + 1] == id);
            }
        }
    }
    let c1 = cols.insert(src, without_id(cols[src], id));
    let dst = cell_text(target);
    let col = if c1.contains_key(dst) {
        c1[dst]
    } else {
        fresh_column(target, tier_for_layer(target.layer as nat, max_layers as nat))
    };
    if !(dedupe && col.ids.contains(id)) {
        let pushed = with_id(col, id, code_for(vectors[id.0], col.tier));
        assert(pushed.ids[pushed.ids.len() - 1] == id);
    }
}

/// No id occurs twice in the columns: none twice in a column, none in two
/// columns.
pub open spec fn ids_unique(cols: Map<Seq<char>, ColumnModel>) -> bool {
    &&& forall|k: Seq<char>| #[trigger] cols.contains_key(k) ==> cols[k].ids.no_duplicates()
    &&& forall|k1: Seq<char>, k2: Seq<char>, x: VectorId|
        cols.contains_key(k1) && cols.contains_key(k2) && k1 != k2 && #[trigger] cols[k1].ids.contains(x)
            ==> !#[trigger] cols[k2].ids.contains(x)
}

/// Some column holds `x`.
pub open spec fn held(cols: Map<Seq<char>, ColumnModel>, x: VectorId) -> bool {
    exists|k: Seq<char>| cols.contains_key(k) && #[trigger] cols[k].ids.contains(x)
}

proof fn lemma_remove_no_dup(s: Seq<VectorId>, p: int)
    requires
        s.no_duplicates(),
        0 <= p < s.len(),
    ensures
        s.remove(p).no_duplicates(),
        forall|x: VectorId| #[trigger] s.remove(p).contains(x) <==> (s.contains(x) && x != s[p]),
{
    let r = s.remove(p);
    assert forall|i: int, j: int| 0 <= i < r.len() && 0 <= j < r.len() && i != j implies r[i] != r[j] by {
        let i0 = if i < p { i } else { i + 1 };
        let j0 = if j < p { j } else { j + 1 };
        assert(r[i] == s[i0] && r[j] == s[j0]);
    }
    assert forall|x: VectorId| #[trigger] r.contains(x) <==> (s.contains(x) && x != s[p]) by {
        if r.contains(x) {
            let i = choose|i: int| 0 <= i < r.len() && r[i] == x;
            let i0 = if i < p { i } else { i + 1 };
            assert(s[i0] == x);
        }
        if s.contains(x) && x != s[p] {
            let i0 = choose|i0: int| 0 <= i0 < s.len() && s[i0] == x;
            if i0 < p {
                assert(r[i0] == x);
            } else {
                assert(r[i0 - 1] == x);
            }
        }
    }
}

proof fn lemma_push_no_dup(s: Seq<VectorId>, x: VectorId)
    requires
        s.no_duplicates(),
        !s.contains(x),
    ensures
        s.push(x).no_duplicates(),
        forall|y: VectorId| #[trigger] s.push(x).contains(y) <==> (s.contains(y) || y == x),
{
    let r = s.push(x);
    assert forall|i: int, j: int| 0 <= i < r.len() && 0 <= j < r.len() && i != j implies r[i] != r[j] by {
        if i < s.len() && j < s.len() {
            assert(r[i] == s[i] && r[j] == s[j]);
        } else if i < s.len() {
            assert(r[i] == s[i]);
        } else if j < s.len() {
            assert(r[j] == s[j]);
        }
    }
    assert forall|y: VectorId| #[trigger] r.contains(y) <==> (s.contains(y) || y == x) by {
        if r.contains(y) {
            let i = choose|i: int| 0 <= i < r.len() && r[i] == y;
            if i < s.len() {
                assert(s[i] == y);
            }
        }
        if s.contains(y) {
            let i = choose|i: int| 0 <= i < s.len() && s[i] == y;
            assert(r[i] == y);
        }
        if y == x {
            assert(r[s.len() as int] == y);
        }
    }
}

/// One move of a vector its source column holds keeps ids unique, moves
/// only that vector, and keeps every id held.
proof fn lemma_move_keeps_ids(
    cols: Map<Seq<char>, ColumnModel>,
    vectors: Map<u64, EncodedVector>,
    mv: (VectorId, Seq<char>, CellCoord),
    max_layers: u8,
    dedupe: bool,
)
    requires
        ids_unique(cols),
        cols.contains_key(mv.1),
        cols[mv.1].ids.contains(mv.0),
    ensures
        ({
            let (c, n) = move_step(cols, vectors, mv, max_layers, dedupe);
            &&& ids_unique(c)
            &&& forall|x: VectorId| held(c, x) <==> held(cols, x)
            &&& forall|k: Seq<char>, x: VectorId|
                x != mv.0 ==> ((c.contains_key(k) && #[trigger] c[k].ids.contains(x)) <==> (cols.contains_key(k)
                    && cols[k].ids.contains(x)))
        }),
{
    let (id, src, target) = mv;
    if !vectors.contains_key(id.0) {
        return;
    }
    let ids = cols[src].ids;
    assert(cols.contains_key(src));
    lemma_first_index(ids, id);
    let p = first_index(ids, id);
    lemma_remove_no_dup(ids, p);
    let c1 = cols.insert(src, without_id(cols[src], id));
    let dst = cell_text(target);
    let col = if c1.contains_key(dst) {
        c1[dst]
    } else {
        fresh_column(target, tier_for_layer(target.layer as nat, max_layers as nat))
    };
    assert(!col.ids.contains(id)) by {
        if c1.contains_key(dst) && dst != src {
            assert(cols[dst] == c1[dst]);
        }
    }
    assert(col.ids.no_duplicates()) by {
        if c1.contains_key(dst) && dst != src {
            assert(cols.contains_key(dst));
        }
    }
    let pushed = with_id(col, id, code_for(vectors[id.0], col.tier));
    lemma_push_no_dup(col.ids, id);
    let c = c1.insert(dst, pushed);
    assert(move_step(cols, vectors, mv, max_layers, dedupe).0 == c);
    assert forall|k: Seq<char>, x: VectorId| x != id implies ((c.contains_key(k) && #[trigger] c[k].ids.contains(x)) <==> (
    cols.contains_key(k) && cols[k].ids.contains(x))) by {
        if k == dst {
            if dst != src && c1.contains_key(dst) {
                assert(c1[dst] == cols[dst]);
            }
        } else if k == src {
        }
    }
    assert(ids_unique(c)) by {
        assert forall|k: Seq<char>| #[trigger] c.contains_key(k) implies c[k].ids.no_duplicates() by {
            if k != dst && k != src {
                assert(c[k] == cols[k]);
            }
        }
        assert forall|k1: Seq<char>, k2: Seq<char>, x: VectorId|
            c.contains_key(k1) && c.contains_key(k2) && k1 != k2 && #[trigger] c[k1].ids.contains(x)
            implies !#[trigger] c[k2].ids.contains(x) by {
            if x == id {
                if k1 != dst {
                    if k1 == src {
                        assert(!c[k1].ids.contains(id));
                    } else {
                        assert(cols.contains_key(k1) && cols[k1].ids.contains(id));
                    }
                }
                if k2 != dst && c[k2].ids.contains(id) {
                    if k2 == src {
                        assert(!c[k2].ids.contains(id));
                    } else {
                        assert(cols.contains_key(k2) && cols[k2].ids.contains(id));
                    }
                }
            } else {
                assert(cols.contains_key(k1) && cols[k1].ids.contains(x));
                if c[k2].ids.contains(x) {
                    assert(cols.contains_key(k2) && cols[k2].ids.contains(x));
                }
            }
        }
    }
    assert forall|x: VectorId| held(c, x) <==> held(cols, x) by {
        if x == id {
            assert(c.contains_key(dst) && c[dst].ids.contains(id)) by {
                assert(pushed.ids[pushed.ids.len() - 1] == id);
            }
            assert(cols.contains_key(src) && cols[src].ids.contains(id));
        } else {
            if held(c, x) {
                let k = choose|k: Seq<char>| c.contains_key(k) && #[trigger] c[k].ids.contains(x);
                assert(cols.contains_key(k) && cols[k].ids.contains(x));
            }
            if held(cols, x) {
                let k = choose|k: Seq<char>| cols.contains_key(k) && #[trigger] cols[k].ids.contains(x);
                assert(c.contains_key(k) && c[k].ids.contains(x));
            }
        }
    }
}

/// No move in `moves` moves `x`.
pub open spec fn not_moved(moves: Seq<(VectorId, Seq<char>, CellCoord)>, x: VectorId) -> bool {
    forall|j: int| 0 <= j < moves.len() ==> moves[j].0 != x
}

/// A vector that no move moves stays in the columns that held it, and in
/// no other.
proof fn lemma_unmoved_stays(
    cols: Map<Seq<char>, ColumnModel>,
    vectors: Map<u64, EncodedVector>,
    moves: Seq<(VectorId, Seq<char>, CellCoord)>,
    max_layers: u8,
    dedupe: bool,
    k: Seq<char>,
    x: VectorId,
)
    requires
        ids_unique(cols),
        forall|j: int| 0 <= j < moves.len() ==> cols.contains_key(#[trigger] moves[j].1) && cols[moves[j].1].ids.contains(moves[j].0),
        forall|a: int, b: int| 0 <= a < b < moves.len() ==> moves[a].0 != moves[b].0,
        not_moved(moves, x),
    ensures
        (moves_result(cols, vectors, moves, max_layers, dedupe).0.contains_key(k)
            && moves_result(cols, vectors, moves, max_layers, dedupe).0[k].ids.contains(x)) <==> (cols.contains_key(k)
            && cols[k].ids.contains(x)),
    decreases moves.len(),
{
    if moves.len() > 0 {
        let init = moves.drop_last();
        assert forall|j: int| 0 <= j < init.len() implies cols.contains_key(#[trigger] init[j].1) && cols[init[j].1].ids.contains(init[j].0) by {
            assert(init[j] == moves[j]);
        }
        assert forall|a: int, b: int| 0 <= a < b < init.len() implies init[a].0 != init[b].0 by {
            assert(init[a] == moves[a] && init[b] == moves[b]);
        }
        let last = moves.last();
        assert(moves[moves.len() - 1] == last);
        assert forall|j: int| 0 <= j < init.len() implies init[j].0 != x by {
            assert(init[j] == moves[j]);
        }
        lemma_unmoved_stays(cols, vectors, init, max_layers, dedupe, k, x);
        assert forall|j: int| 0 <= j < init.len() implies init[j].0 != last.0 by {
            assert(init[j] == moves[j]);
        }
        lemma_unmoved_stays(cols, vectors, init, max_layers, dedupe, last.1, last.0);
        lemma_moves_keep_ids(cols, vectors, init, max_layers, dedupe);
        let c1 = moves_result(cols, vectors, init, max_layers, dedupe).0;
        lemma_move_keeps_ids(c1, vectors, last, max_layers, dedupe);
        assert(last.0 != x);
    }
}

/// Moves whose vectors are distinct, each held by its source column at the
/// start, keep ids unique and keep every id held.
proof fn lemma_moves_keep_ids(
    cols: Map<Seq<char>, ColumnModel>,
    vectors: Map<u64, EncodedVector>,
    moves: Seq<(VectorId, Seq<char>, CellCoord)>,
    max_layers: u8,
    dedupe: bool,
)
    requires
        ids_unique(cols),
        forall|j: int| 0 <= j < moves.len() ==> cols.contains_key(#[trigger] moves[j].1) && cols[moves[j].1].ids.contains(moves[j].0),
        forall|a: int, b: int| 0 <= a < b < moves.len() ==> moves[a].0 != moves[b].0,
    ensures
        ids_unique(moves_result(cols, vectors, moves, max_layers, dedupe).0),
        forall|x: VectorId| held(moves_result(cols, vectors, moves, max_layers, dedupe).0, x) <==> held(cols, x),
    decreases moves.len(),
{
    if moves.len() > 0 {
        let init = moves.drop_last();
        assert forall|j: int| 0 <= j < init.len() implies cols.contains_key(#[trigger] init[j].1) && cols[init[j].1].ids.contains(init[j].0) by {
            assert(init[j] == moves[j]);
        }
        assert forall|a: int, b: int| 0 <= a < b < init.len() implies init[a].0 != init[b].0 by {
            assert(init[a] == moves[a] && init[b] == moves[b]);
        }
        lemma_moves_keep_ids(cols, vectors, init, max_layers, dedupe);
        let last = moves.last();
        assert(moves[moves.len() - 1] == last);
        assert forall|j: int| 0 <= j < init.len() implies init[j].0 != last.0 by {
            assert(init[j] == moves[j]);
        }
        lemma_unmoved_stays(cols, vectors, init, max_layers, dedupe, last.1, last.0);
        let c1 = moves_result(cols, vectors, init, max_layers, dedupe).0;
        lemma_move_keeps_ids(c1, vectors, last, max_layers, dedupe);
    }
}

/// Splitting tall columns keeps ids unique and keeps every id held: the
/// vectors it moves leave their column as they land in the target.
pub proof fn law_splits_keep_ids(
    cols: Map<Seq<char>, ColumnModel>,
    vectors: Map<u64, EncodedVector>,
    children: Map<Seq<char>, CellCoord>,
    tall: Seq<(Seq<char>, CellCoord)>,
    max_layers: u8,
)
    requires
        ids_unique(cols),
    ensures
        ids_unique(splits_result(cols, vectors, children, tall, max_layers).0),
        forall|x: VectorId| held(splits_result(cols, vectors, children, tall, max_layers).0, x) <==> held(cols, x),
    decreases tall.len(),
{
    if tall.len() > 0 {
        law_splits_keep_ids(cols, vectors, children, tall.drop_last(), max_layers);
        let c1 = splits_result(cols, vectors, children, tall.drop_last(), max_layers).0;
        let (k, cell) = tall.last();
        if c1.contains_key(k) && c1[k].ids.len() >= 2 {
            let ids = c1[k].ids;
            let mid = ids.len() / 2;
            let target = split_target(children, k, cell);
            let moves = Seq::new((ids.len() - mid) as nat, |j: int| (ids[mid + j], k, target));
            assert(ids.no_duplicates());
            assert forall|j: int| 0 <= j < moves.len() implies c1.contains_key(#[trigger] moves[j].1) && c1[moves[j].1].ids.contains(moves[j].0) by {
                assert(ids[mid + j] == moves[j].0);
            }
            assert forall|a: int, b: int| 0 <= a < b < moves.len() implies moves[a].0 != moves[b].0 by {
                assert(moves[a].0 == ids[mid + a] && moves[b].0 == ids[mid + b]);
            }
            lemma_moves_keep_ids(c1, vectors, moves, max_layers, true);
        }
    }
}

/// `m` is the move planned for some entry of `pairs`.
pub open spec fn planned_for_entry(
    pairs: Seq<(String, ColumnStack)>,
    keys: Seq<String>,
    max_layers: u8,
    promote: bool,
    m: (VectorId, Seq<char>, CellCoord),
) -> bool {
    exists|i: int| 0 <= i < pairs.len() && #[trigger] planned_move(pairs[i].0@, pairs[i].1, keys, max_layers, promote) == Some(m)
}

/// Each planned move is the move of some entry, and with distinct keys no
/// two planned moves leave the same column.
proof fn lemma_planned_moves_origin(
    pairs: Seq<(String, ColumnStack)>,
    keys: Seq<String>,
    max_layers: u8,
    promote: bool,
)
    requires
        crate::strmap::keys_distinct(pairs),
    ensures
        forall|j: int| 0 <= j < planned_moves(pairs, keys, max_layers, promote).len() ==> planned_for_entry(
            pairs,
            keys,
            max_layers,
            promote,
            #[trigger] planned_moves(pairs, keys, max_layers, promote)[j],
        ),
        forall|a: int, b: int|
            0 <= a < b < planned_moves(pairs, keys, max_layers, promote).len() ==> planned_moves(pairs, keys, max_layers, promote)[a].1
                != planned_moves(pairs, keys, max_layers, promote)[b].1,
    decreases pairs.len(),
{
    if pairs.len() > 0 {
        let init = pairs.drop_last();
        assert(crate::strmap::keys_distinct(init)) by {
            assert forall|a: int, b: int| 0 <= a < b < init.len() implies init[a].0@ != init[b].0@ by {
                assert(init[a] == pairs[a] && init[b] == pairs[b]);
            }
        }
        lemma_planned_moves_origin(init, keys, max_layers, promote);
        let rest = planned_moves(init, keys, max_layers, promote);
        let moves = planned_moves(pairs, keys, max_layers, promote);
        let n = pairs.len() - 1;
        assert(pairs[n] == pairs.last());
        assert forall|j: int| 0 <= j < rest.len() implies planned_for_entry(pairs, keys, max_layers, promote, #[trigger] rest[j]) by {
            assert(planned_for_entry(init, keys, max_layers, promote, rest[j]));
            let i = choose|i: int| 0 <= i < init.len() && #[trigger] planned_move(init[i].0@, init[i].1, keys, max_layers, promote) == Some(rest[j]);
            assert(init[i] == pairs[i]);
            law_planned_move_changes_column(init[i].0@, init[i].1, keys, max_layers, promote);
        }
        match planned_move(pairs.last().0@, pairs.last().1, keys, max_layers, promote) {
            Some(m) => {
                assert(moves == rest.push(m));
                law_planned_move_changes_column(pairs[n].0@, pairs[n].1, keys, max_layers, promote);
                assert(planned_move(pairs[n].0@, pairs[n].1, keys, max_layers, promote) == Some(m));
                assert forall|j: int| 0 <= j < moves.len() implies planned_for_entry(pairs, keys, max_layers, promote, #[trigger] moves[j]) by {
                    if j < rest.len() {
                        assert(moves[j] == rest[j]);
                    } else {
                        assert(moves[j] == m);
                    }
                }
                assert forall|a: int, b: int| 0 <= a < b < moves.len() implies moves[a].1 != moves[b].1 by {
                    if b < rest.len() {
                        assert(moves[a] == rest[a] && moves[b] == rest[b]);
                    } else {
                        assert(moves[a] == rest[a]);
                        assert(moves[b] == m);
                        assert(planned_for_entry(init, keys, max_layers, promote, rest[a]));
                        let i = choose|i: int| 0 <= i < init.len() && #[trigger] planned_move(init[i].0@, init[i].1, keys, max_layers, promote) == Some(rest[a]);
                        law_planned_move_changes_column(init[i].0@, init[i].1, keys, max_layers, promote);
                        assert(init[i] == pairs[i]);
                        assert(pairs[i].0@ != pairs[n].0@);
                    }
                }
            },
            None => {
                assert(moves == rest);
            },
        }
    }
}

/// A promote or demote pass keeps ids unique and keeps every id held, with
/// or without `dedupe`: each planned move takes a vector out of its own
/// column as it lands in the target.
pub proof fn law_planned_moves_keep_ids(
    columns: StrMap<ColumnStack>,
    vectors: Map<u64, EncodedVector>,
    keys: Seq<String>,
    max_layers: u8,
    promote: bool,
    dedupe: bool,
)
    requires
        ids_unique(columns_model(columns)),
        crate::strmap::keys_distinct(columns.pairs()),
    ensures
        ({
            let c = moves_result(
                columns_model(columns),
                vectors,
                planned_moves(columns.pairs(), keys, max_layers, promote),
                max_layers,
                dedupe,
            ).0;
            &&& ids_unique(c)
            &&& forall|x: VectorId| held(c, x) <==> held(columns_model(columns), x)
        }),
{
    let ps = columns.pairs();
    let cols = columns_model(columns);
    let moves = planned_moves(ps, keys, max_layers, promote);
    lemma_planned_moves_origin(ps, keys, max_layers, promote);
    assert forall|j: int| 0 <= j < moves.len() implies cols.contains_key(#[trigger] moves[j].1) && cols[moves[j].1].ids.contains(moves[j].0) by {
        assert(planned_for_entry(ps, keys, max_layers, promote, moves[j]));
        let i = choose|i: int| 0 <= i < ps.len() && #[trigger] planned_move(ps[i].0@, ps[i].1, keys, max_layers, promote) == Some(moves[j]);
        law_planned_move_changes_column(ps[i].0@, ps[i].1, keys, max_layers, promote);
        crate::strmap::lemma_pairs_map_lookup(ps, ps[i].0@);
        assert(crate::strmap::has_key(ps, ps[i].0@));
        let i2 = crate::strmap::key_index(ps, ps[i].0@);
        assert(i == i2) by {
            if i < i2 {
                assert(ps[i].0@ != ps[i2].0@);
            } else if i2 < i {
                assert(ps[i2].0@ != ps[i].0@);
            }
        }
        let c = ps[i].1;
        assert(cols[moves[j].1] == model_of(c));
        if promote {
            assert(c.ids@[c.ids@.len() - 1] == moves[j].0);
        } else {
            assert(c.ids@[0] == moves[j].0);
        }
    }
    assert forall|a: int, b: int| 0 <= a < b < moves.len() implies moves[a].0 != moves[b].0 by {
        assert(moves[a].1 != moves[b].1);
        assert(cols.contains_key(moves[a].1) && cols[moves[a].1].ids.contains(moves[a].0));
        assert(cols.contains_key(moves[b].1) && cols[moves[b].1].ids.contains(moves[b].0));
    }
    lemma_moves_keep_ids(cols, vectors, moves, max_layers, dedupe);
}

/// Collapsing keeps ids unique and keeps every id held: only empty columns
/// go.
pub proof fn law_collapse_keeps_ids(cols: Map<Seq<char>, ColumnModel>, layer: u8)
    requires
        ids_unique(cols),
    ensures
        ids_unique(collapsed(cols, layer)),
        forall|x: VectorId| held(collapsed(cols, layer), x) <==> held(cols, x),
{
    let c = collapsed(cols, layer);
    assert forall|x: VectorId| held(c, x) <==> held(cols, x) by {
        if held(cols, x) {
            let k = choose|k: Seq<char>| cols.contains_key(k) && #[trigger] cols[k].ids.contains(x);
            assert(cols[k].ids.len() > 0);
            assert(c.contains_key(k) && c[k].ids.contains(x));
        }
        if held(c, x) {
            let k = choose|k: Seq<char>| c.contains_key(k) && #[trigger] c[k].ids.contains(x);
            assert(cols.contains_key(k) && cols[k].ids.contains(x));
        }
    }
}

/// A planned promote or demote move never targets its own column: the
/// target cell is on another layer than the cell the source key reads as.
pub proof fn law_planned_move_changes_column(
    k: Seq<char>,
    c: ColumnStack,
    keys: Seq<String>,
    max_layers: u8,
    promote: bool,
)
    requires
        planned_move(k, c, keys, max_layers, promote) is Some,
    ensures
        ({
            let (id, src, target) = planned_move(k, c, keys, max_layers, promote)->0;
            cell_text(target) != k && src == k
        }),
{
    let (id, src, target) = planned_move(k, c, keys, max_layers, promote)->0;
    crate::grid::lemma_cell_text_roundtrip(target);
}

/// What compaction plans for one column: a promote moves the column's
/// newest vector (the last one pushed) from that column to the same cell
/// one layer out; a demote moves its oldest (the first one pushed) to the
/// same cell one layer in. A move is planned exactly for a listed column
/// whose key reads as a cell, that holds a vector, and that has a layer
/// outside it (promote) or inside it (demote).
pub proof fn law_planned_move_shape(
    k: Seq<char>,
    c: ColumnStack,
    keys: Seq<String>,
    max_layers: u8,
    promote: bool,
)
    ensures
        planned_move(k, c, keys, max_layers, promote) is Some <==> ({
            &&& parse_cell_text(k) is Some
            &&& key_listed(keys, k)
            &&& c.ids@.len() > 0
            &&& if promote {
                parse_cell_text(k)->0.layer > 0
            } else {
                parse_cell_text(k)->0.layer + 1 < max_layers
            }
        }),
        planned_move(k, c, keys, max_layers, promote) matches Some(mv) ==> ({
            let cell = parse_cell_text(k)->0;
            &&& mv.1 == k
            &&& mv.2.x == cell.x
            &&& mv.2.y == cell.y
            &&& promote ==> mv.0 == c.ids@[c.ids@.len() - 1] && mv.2.layer + 1 == cell.layer
            &&& !promote ==> mv.0 == c.ids@[0] && mv.2.layer == cell.layer + 1
        }),
{
}

/// The vector pushed last onto a listed column is the one a promote of
/// that column moves out; a demote moves the one that was there first.
pub proof fn law_promote_moves_last_pushed(
    k: Seq<char>,
    c: ColumnStack,
    d: ColumnStack,
    id: VectorId,
    keys: Seq<String>,
    max_layers: u8,
)
    requires
        d.ids@ == c.ids@.push(id),
    ensures
        planned_move(k, d, keys, max_layers, true) matches Some(mv) ==> mv.0 == id,
        c.ids@.len() > 0 ==> (planned_move(k, d, keys, max_layers, false) matches Some(mv) ==> mv.0
            == c.ids@[0]),
{
}

impl Default for CompactionEngine {
    fn default() -> (r: Self)
        ensures
            r.events == 0,
    {
        CompactionEngine::new()
    }
}

} // verus!
