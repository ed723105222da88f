//! The column map of a Z-column index: where a new vector lands, how a
//! vector leaves every column, which columns served a query, and how the
//! map is rebuilt from stored segments.

use vstd::prelude::*;
use crate::column::{first_index, lemma_first_index, ColumnStack};
use crate::compact::{
    all_covered, code_at, ids_contain, code_for, columns_model, fresh_column, lemma_model_push,
    lemma_model_remove, model_of, vacant_column, with_id, without_id, ColumnModel, EncodedVector,
};
use crate::grid::{cell_text, CellCoord, ColumnPath};
use crate::quant::{tier_for_layer, QuantTier};
use crate::strmap::StrMap;
use crate::types::VectorId;

verus! {

/// The columns after vector `id` lands in the column of `cell`: the column
/// is created (at the tier of its layer) when missing, and the vector goes
/// on top with its payload at the column's tier.
pub open spec fn placed(
    cols: Map<Seq<char>, ColumnModel>,
    cell: CellCoord,
    max_layers: u8,
    id: VectorId,
    enc: EncodedVector,
) -> Map<Seq<char>, ColumnModel> {
    let key = cell_text(cell);
    let col = if cols.contains_key(key) {
        cols[key]
    } else {
        fresh_column(cell, tier_for_layer(cell.layer as nat, max_layers as nat))
    };
    cols.insert(key, with_id(col, id, code_for(enc, col.tier)))
}

/// Puts vector `id` on top of the column of `cell`, creating the column
/// when it is missing.
pub fn place_vector(
    columns: &mut StrMap<ColumnStack>,
    cell: CellCoord,
    max_layers: u8,
    id: VectorId,
    enc: &EncodedVector,
)
    requires
        all_covered(*old(columns)),
    ensures
        all_covered(*final(columns)),
        columns_model(*final(columns)) == placed(columns_model(*old(columns)), cell, max_layers, id, *enc),
{
    let ghost cols0 = columns_model(*columns);
    let key = cell.to_string();
    let found = columns.find(key.as_str());
    let mut col = match found {
        Some(i) => {
            let c = columns.replace_at(i, vacant_column());
            assert(model_of(c) == cols0[key@]);
            c
        },
        None => {
            let c = ColumnStack::new(ColumnPath::from_cell(cell), QuantTier::for_layer(cell.layer, max_layers));
            assert(model_of(c).path =~= seq![cell]);
            assert(model_of(c).quantized =~= Seq::<Seq<u8>>::empty());
            assert(model_of(c).ids =~= Seq::<VectorId>::empty());
            assert(model_of(c) == fresh_column(cell, tier_for_layer(cell.layer as nat, max_layers as nat)));
            c
        },
    };
    let ghost c0 = col;
    let code = code_at(enc, col.quant_tier);
    let ghost code_v = code;
    col.push_encoded(id, code);
    proof {
        lemma_model_push(c0, col, id, code_v);
    }
    match found {
        Some(i) => {
            columns.replace_at(i, col);
        },
        None => {
            columns.insert(key, col);
        },
    }
    proof {
        assert(columns_model(*columns) =~= placed(cols0, cell, max_layers, id, *enc));
    }
}

/// The columns after vector `id` leaves every column (its first entry in
/// each), with the columns it leaves empty dropped.
pub open spec fn removed_everywhere(cols: Map<Seq<char>, ColumnModel>, id: VectorId) -> Map<Seq<char>, ColumnModel> {
    Map::new(
        |k: Seq<char>| cols.contains_key(k) && without_id(cols[k], id).ids.len() > 0,
        |k: Seq<char>| without_id(cols[k], id),
    )
}

/// The columns with the keys in `done` already through `removed_everywhere`.
spec fn removed_in(cols: Map<Seq<char>, ColumnModel>, id: VectorId, done: Seq<Seq<char>>) -> Map<Seq<char>, ColumnModel> {
    Map::new(
        |k: Seq<char>| cols.contains_key(k) && (done.contains(k) ==> without_id(cols[k], id).ids.len() > 0),
        |k: Seq<char>| if done.contains(k) {
            without_id(cols[k], id)
        } else {
            cols[k]
        },
    )
}

/// Takes vector `id` out of every column and drops the columns left empty.
pub fn remove_vector(columns: &mut StrMap<ColumnStack>, id: VectorId)
    requires
        all_covered(*old(columns)),
    ensures
        all_covered(*final(columns)),
        columns_model(*final(columns)) == removed_everywhere(columns_model(*old(columns)), id),
{
    let ghost cols0 = columns_model(*columns);
    let keys = columns.keys();
    let ghost ks = keys@.map_values(|k: String| k@);
    proof {
        assert(removed_in(cols0, id, ks.take(0)) =~= cols0);
        assert(columns_model(*columns) =~= cols0);
    }
    let mut q: usize = 0;
    while q < keys.len()
        invariant
            q <= keys@.len(),
            ks == keys@.map_values(|k: String| k@),
            forall|i: int, j: int| 0 <= i < j < keys@.len() ==> keys@[i]@ != keys@[j]@,
            forall|k: Seq<char>| cols0.contains_key(k) <==> exists|i: int| 0 <= i < keys@.len() && #[trigger] keys@[i]@ == k,
            all_covered(*columns),
            columns_model(*columns) == removed_in(cols0, id, ks.take(q as int)),
        decreases keys@.len() - q,
    {
        let k = &keys[q];
        let ghost kq = k@;
        let ghost done = ks.take(q as int);
        proof {
            assert(ks[q as int] == kq);
            assert(cols0.contains_key(kq));
            assert(!done.contains(kq)) by {
                if done.contains(kq) {
                    let j = choose|j: int| 0 <= j < done.len() && done[j] == kq;
                    assert(keys@[j]@ == keys@[q as int]@);
                }
            }
            assert(ks.take(q + 1) =~= done.push(kq));
        }
        let ghost m0 = columns_model(*columns);
        proof {
            assert(m0.contains_key(kq));
            assert(m0[kq] == cols0[kq]);
            assert(columns@.contains_key(kq));
            assert(m0[kq] == model_of(columns@[kq]));
        }
        let taken = columns.remove(k.as_str());
        match taken {
            Some(col) => {
                let mut col = col;
                let ghost c0 = col;
                proof {
                    assert(model_of(c0) == cols0[kq]);
                    assert(columns_model(*columns) =~= m0.remove(kq));
                }
                proof {
                    if col.ids@.contains(id) {
                        lemma_first_index(col.ids@, id);
                    }
                }
                col.remove_id(id);
                proof {
                    lemma_model_remove(c0, col, id);
                }
                if !col.is_empty() {
                    let ghost c1 = col;
                    columns.insert(k.clone(), col);
                    proof {
                        assert(columns_model(*columns) =~= m0.insert(kq, model_of(c1)));
                    }
                }
            },
            None => {},
        }
        proof {
            let next = ks.take(q + 1);
            assert forall|x: Seq<char>| #[trigger] next.contains(x) <==> (done.contains(x) || x == kq) by {
                if next.contains(x) {
                    let j = choose|j: int| 0 <= j < next.len() && next[j] == x;
                    if j < q {
                        assert(done[j] == x);
                    }
                }
                if done.contains(x) {
                    let j = choose|j: int| 0 <= j < done.len() && done[j] == x;
                    assert(next[j] == x);
                }
                if x == kq {
                    assert(next[q as int] == x);
                }
            }
            assert(columns_model(*columns) =~= removed_in(cols0, id, next));
        }
        q = q + 1;
    }
    proof {
        assert forall|x: Seq<char>| cols0.contains_key(x) implies #[trigger] ks.take(keys@.len() as int).contains(x) by {
            let i = choose|i: int| 0 <= i < keys@.len() && #[trigger] keys@[i]@ == x;
            assert(ks.take(keys@.len() as int)[i] == x);
        }
        assert(columns_model(*columns) =~= removed_everywhere(cols0, id));
    }
}

/// Whether a column holds any of `ids`.
pub open spec fn holds_any(c: ColumnModel, ids: Seq<VectorId>) -> bool {
    exists|a: VectorId| ids.contains(a) && c.ids.contains(a)
}

fn column_holds_any(col_ids: &Vec<VectorId>, ids: &Vec<VectorId>) -> (r: bool)
    ensures
        r == exists|a: VectorId| ids@.contains(a) && col_ids@.contains(a),
{
    let mut j: usize = 0;
    while j < col_ids.len()
        invariant
            j <= col_ids@.len(),
            forall|jj: int| 0 <= jj < j ==> !ids@.contains(#[trigger] col_ids@[jj]),
        decreases col_ids@.len() - j,
    {
        if ids_contain(ids, col_ids[j]) {
            assert(col_ids@.contains(col_ids@[j as int]));
            return true;
        }
        j = j + 1;
    }
    proof {
        assert forall|a: VectorId| !(ids@.contains(a) && col_ids@.contains(a)) by {
            if col_ids@.contains(a) {
                let jj = choose|jj: int| 0 <= jj < col_ids@.len() && col_ids@[jj] == a;
                assert(!ids@.contains(col_ids@[jj]));
            }
        }
    }
    false
}

/// The keys of the columns that hold any of `ids` (the columns that served
/// a query's results), each once.
pub fn columns_holding(columns: &StrMap<ColumnStack>, ids: &Vec<VectorId>) -> (r: Vec<String>)
    ensures
        forall|i: int, j: int| 0 <= i < j < r@.len() ==> r@[i]@ != r@[j]@,
        forall|i: int|
            0 <= i < r@.len() ==> columns_model(*columns).contains_key(#[trigger] r@[i]@) && holds_any(
                columns_model(*columns)[r@[i]@],
                ids@,
            ),
        forall|k: Seq<char>|
            columns_model(*columns).contains_key(k) && #[trigger] holds_any(columns_model(*columns)[k], ids@)
                ==> exists|i: int| 0 <= i < r@.len() && r@[i]@ == k,
{
    let n = columns.len();
    let ghost ps = columns.pairs();
    let ghost cm = columns_model(*columns);
    let mut out: Vec<String> = Vec::new();
    let ghost mut src: Seq<int> = Seq::empty();
    let mut i: usize = 0;
    while i < n
        invariant
            n == ps.len(),
            ps == columns.pairs(),
            crate::strmap::keys_distinct(ps),
            i <= n,
            out@.len() == src.len(),
            forall|a: int|
                0 <= a < src.len() ==> 0 <= #[trigger] src[a] < i && out@[a]@ == ps[src[a]].0@ && holds_any(
                    model_of(ps[src[a]].1),
                    ids@,
                ),
            forall|a: int, b: int| 0 <= a < b < src.len() ==> src[a] < src[b],
            forall|j: int| 0 <= j < i && #[trigger] holds_any(model_of(ps[j].1), ids@) ==> src.contains(j),
        decreases n - i,
    {
        let k = columns.key_at(i);
        let c = columns.value_at(i);
        proof {
            assert(model_of(ps[i as int].1).ids == c.ids@);
        }
        if column_holds_any(&c.ids, ids) {
            out.push(k.clone());
            proof {
                let s0 = src;
                src = src.push(i as int);
                assert forall|j: int| 0 <= j < i + 1 && #[trigger] holds_any(model_of(ps[j].1), ids@) implies src.contains(j) by {
                    if j < i {
                        let a = choose|a: int| 0 <= a < s0.len() && s0[a] == j;
                        assert(src[a] == j);
                    } else {
                        assert(src[s0.len() as int] == j);
                    }
                }
            }
        } else {
            proof {
                assert forall|j: int| 0 <= j < i + 1 && #[trigger] holds_any(model_of(ps[j].1), ids@) implies src.contains(j) by {
                    if j == i {
                        assert(false);
                    }
                }
            }
        }
        i = i + 1;
    }
    proof {
        assert forall|a: int, b: int| 0 <= a < b < out@.len() implies out@[a]@ != out@[b]@ by {
            assert(src[a] < src[b]);
            assert(ps[src[a]].0@ != ps[src[b]].0@);
        }
        assert forall|a: int| 0 <= a < out@.len() implies cm.contains_key(#[trigger] out@[a]@) && holds_any(
            cm[out@[a]@],
            ids@,
        ) by {
            let j = src[a];
            crate::strmap::lemma_pairs_map_lookup(ps, ps[j].0@);
            assert(crate::strmap::has_key(ps, ps[j].0@));
            let j2 = crate::strmap::key_index(ps, ps[j].0@);
            assert(j == j2) by {
                if j < j2 {
                    assert(ps[j].0@ != ps[j2].0@);
                } else if j2 < j {
                    assert(ps[j2].0@ != ps[j].0@);
                }
            }
        }
        assert forall|k: Seq<char>| cm.contains_key(k) && #[trigger] holds_any(cm[k], ids@) implies exists|a: int|
            0 <= a < out@.len() && out@[a]@ == k by {
            crate::strmap::lemma_pairs_map_lookup(ps, k);
            let j = crate::strmap::key_index(ps, k);
            assert(holds_any(model_of(ps[j].1), ids@));
            let a = choose|a: int| 0 <= a < src.len() && src[a] == j;
            assert(out@[a]@ == k);
        }
    }
    out
}

/// The stacks of stored segments, layer after layer.
pub open spec fn segment_stacks(layers: Seq<(u8, Vec<ColumnStack>)>) -> Seq<ColumnStack>
    decreases layers.len(),
{
    if layers.len() == 0 {
        Seq::empty()
    } else {
        segment_stacks(layers.drop_last()) + layers.last().1@
    }
}

/// The columns rebuilt from stacks in order: each stack that stands at a
/// cell goes under the cell's key (a later stack replacing an earlier one);
/// a stack without a cell is skipped.
pub open spec fn restored(stacks: Seq<ColumnStack>) -> Map<Seq<char>, ColumnModel>
    decreases stacks.len(),
{
    if stacks.len() == 0 {
        Map::empty()
    } else {
        let before = restored(stacks.drop_last());
        let s = stacks.last();
        if s.path.0@.len() == 0 {
            before
        } else {
            before.insert(cell_text(s.path.0@.last()), model_of(s))
        }
    }
}

/// Rebuilds the column map from stored segments (each a layer and its
/// stacks), keying each stack by the cell it stands at.
pub fn restore_from_segments(layers: Vec<(u8, Vec<ColumnStack>)>) -> (r: StrMap<ColumnStack>)
    ensures
        columns_model(r) == restored(segment_stacks(layers@)),
{
    let ghost layers0 = layers@;
    let mut layers = layers;
    let mut out: StrMap<ColumnStack> = StrMap::new();
    proof {
        assert(columns_model(out) =~= Map::<Seq<char>, ColumnModel>::empty());
        assert(layers0.take(0) =~= Seq::<(u8, Vec<ColumnStack>)>::empty());
    }
    let mut li: usize = 0;
    while li < layers.len()
        invariant
            li <= layers@.len(),
            layers@.len() == layers0.len(),
            forall|a: int| li <= a < layers0.len() ==> #[trigger] layers@[a] == layers0[a],
            columns_model(out) == restored(segment_stacks(layers0.take(li as int))),
        decreases layers@.len() - li,
    {
        let mut stacks: Vec<ColumnStack> = Vec::new();
        std::mem::swap(&mut stacks, &mut layers[li].1);
        let ghost stacks0 = stacks@;
        let ghost base = segment_stacks(layers0.take(li as int));
        proof {
            assert(stacks0 == layers0[li as int].1@);
            assert(layers0.take(li + 1).drop_last() =~= layers0.take(li as int));
            assert(segment_stacks(layers0.take(li + 1)) == base + stacks0);
            assert(base + stacks0.take(0) =~= base);
        }
        let mut j: usize = 0;
        while j < stacks.len()
            invariant
                j <= stacks@.len(),
                stacks@.len() == stacks0.len(),
                forall|b: int| j <= b < stacks0.len() ==> #[trigger] stacks@[b] == stacks0[b],
                columns_model(out) == restored(base + stacks0.take(j as int)),
            decreases stacks@.len() - j,
        {
            let mut s = vacant_column();
            std::mem::swap(&mut s, &mut stacks[j]);
            proof {
                assert(s == stacks0[j as int]);
                assert((base + stacks0.take(j + 1)).drop_last() =~= base + stacks0.take(j as int));
                assert((base + stacks0.take(j + 1)).last() == s);
            }
            let cell = match s.cell() {
                Some(c) => Some(*c),
                None => None,
            };
            match cell {
                Some(c) => {
                    let key = c.to_string();
                    let ghost m0 = columns_model(out);
                    let ghost s0 = s;
                    out.insert(key, s);
                    proof {
                        assert(columns_model(out) =~= m0.insert(cell_text(c), model_of(s0)));
                    }
                },
                None => {},
            }
            j = j + 1;
        }
        proof {
            assert(stacks0.take(stacks0.len() as int) =~= stacks0);
        }
        li = li + 1;
    }
    proof {
        assert(layers0.take(layers0.len() as int) =~= layers0);
    }
    out
}

/// A column's ids and payloads stand side by side.
pub open spec fn model_aligned(c: ColumnModel) -> bool {
    c.ids.len() == c.quantized.len()
}

/// Taking a vector out after putting it in restores the column map: when
/// no column holds `id`, and every column is nonempty with its ids and
/// payloads side by side, removing `id` everywhere after placing it at any
/// cell gives back the columns as they were.
pub proof fn law_place_then_remove(
    cols: Map<Seq<char>, ColumnModel>,
    cell: CellCoord,
    max_layers: u8,
    id: VectorId,
    enc: EncodedVector,
)
    requires
        forall|k: Seq<char>|
            #[trigger] cols.contains_key(k) ==> !cols[k].ids.contains(id) && cols[k].ids.len() > 0
                && model_aligned(cols[k]),
    ensures
        removed_everywhere(placed(cols, cell, max_layers, id, enc), id) == cols,
{
    let key = cell_text(cell);
    let p = placed(cols, cell, max_layers, id, enc);
    let r = removed_everywhere(p, id);
    assert forall|k: Seq<char>| k != key && #[trigger] cols.contains_key(k) implies r.contains_key(k) && r[k]
        == cols[k] by {
        assert(p[k] == cols[k]);
    }
    if cols.contains_key(key) {
        let c = cols[key];
        let c1 = p[key];
        assert(c1.ids == c.ids.push(id));
        assert(c1.ids.contains(id)) by {
            assert(c1.ids[c.ids.len() as int] == id);
        }
        lemma_first_index(c1.ids, id);
        let q = first_index(c1.ids, id);
        assert(q == c.ids.len()) by {
            if q < c.ids.len() {
                assert(c.ids[q] == c1.ids[q]);
                assert(c.ids.contains(id));
            }
        }
        assert(c1.ids.remove(q) =~= c.ids);
        assert(c1.quantized.remove(q) =~= c.quantized);
        assert(without_id(c1, id) == c);
    } else {
        let c1 = p[key];
        assert(c1.ids =~= seq![id]);
        assert(c1.ids.contains(id)) by {
            assert(c1.ids[0] == id);
        }
        lemma_first_index(c1.ids, id);
        assert(without_id(c1, id).ids.len() == 0);
    }
    assert(r =~= cols);
}

} // verus!
