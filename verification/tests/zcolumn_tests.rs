use std::collections::HashMap;
use topolsea::column::ColumnStack;
use topolsea::compact::{CompactionEngine, EncodedVector};
use topolsea::explain::{QueryExplain, SearchStats};
use topolsea::grid::{all_cells, cells_around, CellCoord, ColumnPath, LayerShape};
use topolsea::quant::{pack_u16_le, pack_u32_le, unpack_u16_le, unpack_u32_le, QuantTier, QuantTierKind};
use topolsea::routing::{shard_for_hash, shard_id_for_column_key, shard_ids_for_cells};
use topolsea::strmap::StrMap;
use topolsea::types::VectorId;
use topolsea::bench::{flag, ProveConfig};
use topolsea::hnsw::{entry_after_remove, NodeGraph};
use topolsea::ivf::{training_sample_cap, IvfLists};

fn code(tier: QuantTier, v: &[u8]) -> Vec<u8> {
    let per = tier.bytes_per_dim();
    let mut out = Vec::new();
    for b in v {
        for _ in 0..per {
            out.push(*b);
        }
    }
    out
}

fn encoded(v: &[u8]) -> EncodedVector {
    EncodedVector {
        u8_code: code(QuantTier::U8, v),
        u16_code: code(QuantTier::U16, v),
        f32_code: code(QuantTier::F32, v),
    }
}

#[test]
fn promote_hot_moves_not_copies() {
    let mut columns = StrMap::new();
    let cell = CellCoord::new(1, 0, 0);
    let mut stack = ColumnStack::new(ColumnPath::from_cell(cell), QuantTier::U8);
    let id = VectorId(7);
    stack.push_encoded(id, code(QuantTier::U8, &[1, 0]));
    columns.insert(cell.to_string(), stack);

    let mut vectors = HashMap::new();
    vectors.insert(id.0, encoded(&[1, 0]));

    let mut engine = CompactionEngine::new();
    // a grid of three layers; the source column is hot
    engine.collapse_empty_inner(3, &mut columns);
    engine.promote_hot(&mut columns, &vectors, &vec![cell.to_string()], 3);
    engine.demote_cold(&mut columns, &vectors, &vec![], 3);
    engine.split_tall_columns(&mut columns, &vectors, &StrMap::new(), 8, 3);

    let src = columns.get(&cell.to_string());
    let promoted = columns.get(&CellCoord::new(0, 0, 0).to_string());
    assert!(src.map(|c| !c.ids.contains(&id)).unwrap_or(true));
    assert!(promoted.map(|c| c.ids.contains(&id)).unwrap_or(false));
    // the promoted copy is quantized at the outer layer's tier
    let p = promoted.unwrap();
    assert_eq!(p.quant_tier, QuantTier::U8);
    assert_eq!(p.quantized[0], vec![1, 0]);
    assert!(engine.events >= 2);
}

#[test]
fn demote_cold_moves_oldest_inward() {
    let mut columns = StrMap::new();
    let cell = CellCoord::new(0, 2, 3);
    let mut stack = ColumnStack::new(ColumnPath::from_cell(cell), QuantTier::U8);
    stack.push_encoded(VectorId(1), vec![9]);
    stack.push_encoded(VectorId(2), vec![8]);
    columns.insert(cell.to_string(), stack);
    let mut vectors = HashMap::new();
    vectors.insert(1u64, encoded(&[5]));
    vectors.insert(2u64, encoded(&[6]));
    let mut engine = CompactionEngine::new();
    engine.demote_cold(&mut columns, &vectors, &vec!["0:2:3".to_string()], 3);
    let src = columns.get("0:2:3").unwrap();
    assert_eq!(src.ids, vec![VectorId(2)]);
    assert_eq!(src.quantized, vec![vec![8]]);
    let dst = columns.get("1:2:3").unwrap();
    assert_eq!(dst.ids, vec![VectorId(1)]);
    assert_eq!(dst.quant_tier, QuantTier::U16);
    assert_eq!(dst.quantized, vec![vec![5, 5]]);
    assert_eq!(engine.events, 1);
}

#[test]
fn split_moves_upper_half() {
    let mut columns = StrMap::new();
    let cell = CellCoord::new(0, 0, 0);
    let mut stack = ColumnStack::new(ColumnPath::from_cell(cell), QuantTier::U8);
    let mut vectors = HashMap::new();
    for i in 0..10u64 {
        stack.push_encoded(VectorId(i), vec![i as u8]);
        vectors.insert(i, encoded(&[i as u8]));
    }
    columns.insert(cell.to_string(), stack);
    let mut children = StrMap::new();
    children.insert("0:0:0".to_string(), CellCoord::new(1, 1, 1));
    let mut engine = CompactionEngine::new();
    engine.split_tall_columns(&mut columns, &vectors, &children, 8, 3);
    let src = columns.get("0:0:0").unwrap();
    assert_eq!(src.ids, (0..5).map(VectorId).collect::<Vec<_>>());
    let dst = columns.get("1:1:1").unwrap();
    assert_eq!(dst.ids, (5..10).map(VectorId).collect::<Vec<_>>());
    assert_eq!(engine.events, 5);
    // without a recorded child the split goes one cell along x
    let mut columns2 = StrMap::new();
    let mut stack2 = ColumnStack::new(ColumnPath::from_cell(cell), QuantTier::U8);
    for i in 0..10u64 {
        stack2.push_encoded(VectorId(i), vec![0]);
    }
    columns2.insert(cell.to_string(), stack2);
    engine.split_tall_columns(&mut columns2, &vectors, &StrMap::new(), 8, 3);
    assert_eq!(columns2.get("0:1:0").unwrap().ids.len(), 5);
}

#[test]
fn collapse_drops_empty_inner_columns() {
    let mut columns = StrMap::new();
    columns.insert("2:0:0".to_string(), ColumnStack::new(ColumnPath::from_cell(CellCoord::new(2, 0, 0)), QuantTier::F32));
    let mut full = ColumnStack::new(ColumnPath::from_cell(CellCoord::new(2, 1, 0)), QuantTier::F32);
    full.push_encoded(VectorId(1), vec![0, 0, 0, 0]);
    columns.insert("2:1:0".to_string(), full);
    columns.insert("0:0:0".to_string(), ColumnStack::new(ColumnPath::from_cell(CellCoord::new(0, 0, 0)), QuantTier::U8));
    let mut engine = CompactionEngine::new();
    engine.collapse_empty_inner(3, &mut columns);
    assert!(columns.get("2:0:0").is_none());
    assert!(columns.get("2:1:0").is_some());
    assert!(columns.get("0:0:0").is_some());
    assert_eq!(engine.events, 1);
    columns.remove("2:1:0");
    engine.collapse_empty_inner(3, &mut columns);
    // nothing left on the inner layer: one more event
    assert_eq!(engine.events, 2);
    // with a single layer nothing happens
    engine.collapse_empty_inner(1, &mut columns);
    assert_eq!(engine.events, 2);
}

#[test]
fn column_stack_basics() {
    let mut c = ColumnStack::from_persisted("3:17:x", vec![VectorId(4), VectorId(5)], vec![vec![1], vec![2]], QuantTier::U16);
    assert_eq!(*c.cell().unwrap(), CellCoord::new(3, 17, 0));
    assert_eq!(c.height(), 2);
    assert!(c.remove_id(VectorId(4)));
    assert!(!c.remove_id(VectorId(4)));
    assert_eq!(c.quantized, vec![vec![2]]);
    assert!(!c.is_empty());
    let d = ColumnStack::from_persisted("", vec![], vec![], QuantTier::U8);
    assert_eq!(*d.cell().unwrap(), CellCoord::new(0, 0, 0));
    assert!(d.is_empty());
}

#[test]
fn cell_text_round_trip() {
    let c = CellCoord::new(2, 300, 65535);
    assert_eq!(c.to_string(), "2:300:65535");
    assert_eq!(CellCoord::parse("2:300:65535"), Ok(c));
    assert_eq!("2:300:65535".parse::<CellCoord>(), Ok(c));
    assert!(CellCoord::parse("256:0:0").is_err());
    assert!(CellCoord::parse("1:2").is_err());
    assert!(CellCoord::parse("1:2:3:4").is_err());
    assert!(CellCoord::parse("+1:2:3").is_ok());
    assert_eq!(c.key(), (2, 300, 65535));
}

#[test]
fn column_path_basics() {
    let p = ColumnPath::from_cell(CellCoord::new(1, 2, 3));
    assert_eq!(p.depth(), 1);
    assert_eq!(p.leaf(), Some(&CellCoord::new(1, 2, 3)));
    let e = ColumnPath::default();
    assert_eq!(e.depth(), 0);
    assert_eq!(e.leaf(), None);
}

#[test]
fn grid_cells() {
    let shape = LayerShape { layer: 1, width: 3, height: 2 };
    let cells = all_cells(shape);
    assert_eq!(cells.len(), 6);
    assert_eq!(cells[4], CellCoord::new(1, 1, 1));
    let around = cells_around(shape, CellCoord::new(1, 0, 0), 1);
    assert_eq!(around.len(), 4);
    assert!(around.contains(&CellCoord::new(1, 1, 1)));
    assert!(!around.contains(&CellCoord::new(1, 2, 0)));
}

#[test]
fn quant_tiers() {
    assert_eq!(QuantTier::for_layer(0, 3), QuantTier::U8);
    assert_eq!(QuantTier::for_layer(1, 3), QuantTier::U16);
    assert_eq!(QuantTier::for_layer(2, 3), QuantTier::F32);
    assert_eq!(QuantTier::for_layer(5, 3), QuantTier::F32);
    assert_eq!(QuantTier::F32.bytes_per_dim(), 4);
    assert_eq!(QuantTier::U16.bytes_per_dim(), 2);
    assert_ne!(QuantTierKind::U8, QuantTierKind::F32);
}

#[test]
fn routing_shards() {
    assert_eq!(shard_id_for_column_key("1:2:3", 1), 0);
    assert_eq!(shard_id_for_column_key("1:2:3", 0), 0);
    let a = shard_id_for_column_key("1:2:3", 8);
    let b = shard_id_for_column_key("1:2:3", 8);
    assert_eq!(a, b);
    assert!(a < 8);
    let distinct: std::collections::HashSet<usize> =
        (0..64u16).map(|x| shard_id_for_column_key(&CellCoord::new(0, x, 0).to_string(), 16)).collect();
    assert!(distinct.len() > 1);
    assert_eq!(shard_for_hash(17, 5), 2);
    assert_eq!(shard_for_hash(17, 1), 0);
}

#[test]
fn query_shards_are_sorted_and_distinct() {
    let mut placements = StrMap::new();
    placements.insert("0:0:0".to_string(), 3u8);
    placements.insert("0:1:0".to_string(), 3u8);
    let cells = vec![CellCoord::new(0, 0, 0), CellCoord::new(0, 1, 0)];
    let shards = shard_ids_for_cells(5, &cells, &placements, 16);
    assert_eq!(shards, vec![3, 5]);
    let only = shard_ids_for_cells(9, &vec![], &placements, 16);
    assert_eq!(only, vec![9]);
    let hashed = shard_ids_for_cells(0, &vec![CellCoord::new(2, 2, 2)], &StrMap::new(), 4);
    let expected = shard_id_for_column_key("2:2:2", 4);
    assert!(hashed.contains(&expected) && hashed.contains(&0));
}

#[test]
fn explain_and_stats() {
    let e = QueryExplain::new("predictive_revert_beam");
    assert_eq!(e.strategy, "predictive_revert_beam");
    assert_eq!(e.candidate_pool, 0);
    assert!(!e.used_fallback_scan);
    let d = QueryExplain::default();
    assert_eq!(d.strategy, "");
    let s = SearchStats { revert_count: 1, columns_scanned: 2 };
    assert_eq!(s, SearchStats { revert_count: 1, columns_scanned: 2 });
}

#[test]
fn bench_settings() {
    let c = ProveConfig::default();
    assert_eq!(c.dimension, 128);
    assert_eq!(c.scales, vec![10_000, 100_000]);
    assert_eq!(flag(true), 'Y');
    assert_eq!(flag(false), 'n');
}

#[test]
fn node_graph_layers() {
    let mut g = NodeGraph::default();
    assert_eq!(g.max_layer(), -1);
    g.ensure_layer(2);
    assert_eq!(g.max_layer(), 2);
    g.layers[0].push(VectorId(3));
    g.ensure_layer(1);
    assert_eq!(g.layers.len(), 3);
    assert_eq!(g.layers[0], vec![VectorId(3)]);
}

#[test]
fn payload_byte_layout() {
    let bytes = pack_u16_le(&[1, 258, 65535]);
    assert_eq!(bytes, vec![1, 0, 2, 1, 255, 255]);
    assert_eq!(unpack_u16_le(&bytes, 3), vec![1, 258, 65535]);
    assert_eq!(unpack_u16_le(&bytes, 2), vec![1, 258]);
    assert_eq!(unpack_u16_le(&bytes[..5], 3), vec![1, 258]);
    let words = pack_u32_le(&[0x0403_0201, 1.5f32.to_bits()]);
    assert_eq!(&words[..4], &[1, 2, 3, 4]);
    assert_eq!(&words[4..], &1.5f32.to_le_bytes());
    assert_eq!(unpack_u32_le(&words, 8), vec![0x0403_0201, 1.5f32.to_bits()]);
}

#[test]
fn node_graph_links() {
    let mut g = NodeGraph::new();
    assert_eq!(g.link(1, VectorId(4)), 1);
    assert_eq!(g.link(1, VectorId(4)), 1);
    assert_eq!(g.link(1, VectorId(5)), 2);
    assert_eq!(g.layers.len(), 2);
    assert!(g.layers[0].is_empty());
    g.layers[0].push(VectorId(5));
    g.unlink(VectorId(5));
    assert_eq!(g.layers[0], Vec::<VectorId>::new());
    assert_eq!(g.layers[1], vec![VectorId(4)]);
}

#[test]
fn ivf_list_bookkeeping() {
    use_ivf();
}

fn use_ivf() {
    let mut lists: IvfLists<u8> = IvfLists::new(0);
    lists.push(0, VectorId(1), 10);
    lists.push(0, VectorId(2), 20);
    lists.push(0, VectorId(3), 30);
    assert_eq!(lists.len(), 3);
    assert_eq!(lists.lookup(VectorId(2)), Some(&20));
    assert!(lists.remove(VectorId(1)));
    // the last entry took the freed slot and is still found
    assert_eq!(lists.lookup(VectorId(3)), Some(&30));
    assert_eq!(lists.lookup(VectorId(1)), None);
    assert!(!lists.remove(VectorId(1)));
    assert_eq!(lists.len(), 2);
    lists.rebuild_locate();
    assert_eq!(lists.lookup(VectorId(2)), Some(&20));
    assert_eq!(training_sample_cap(0), 256);
    assert_eq!(training_sample_cap(4), 1024);
    assert_eq!(training_sample_cap(1000), 10_000);
    assert_eq!(training_sample_cap(usize::MAX), 10_000);
}

#[test]
fn remove_id_accepts_extra_payloads() {
    let mut col = ColumnStack::new(ColumnPath::from_cell(CellCoord::new(0, 0, 0)), QuantTier::U8);
    col.ids = vec![VectorId(1), VectorId(2)];
    col.quantized = vec![vec![10], vec![20], vec![30]];
    assert!(col.remove_id(VectorId(2)));
    assert_eq!(col.ids, vec![VectorId(1)]);
    assert_eq!(col.quantized, vec![vec![10u8], vec![30]]);
    assert!(!col.remove_id(VectorId(9)));
    assert_eq!(col.quantized.len(), 2);
}

#[test]
fn entry_point_moves_when_it_leaves() {
    let mut g = NodeGraph::new();
    g.ensure_layer(3);
    assert_eq!(entry_after_remove(Some(VectorId(1)), 2, VectorId(5), Some(VectorId(9)), Some(&g)), (Some(VectorId(1)), 2));
    assert_eq!(entry_after_remove(Some(VectorId(5)), 2, VectorId(5), Some(VectorId(9)), Some(&g)), (Some(VectorId(9)), 3));
    assert_eq!(entry_after_remove(Some(VectorId(5)), 2, VectorId(5), Some(VectorId(9)), None), (Some(VectorId(9)), -1));
    assert_eq!(entry_after_remove(Some(VectorId(5)), 2, VectorId(5), None, None), (None, -1));
    assert_eq!(entry_after_remove(None, -1, VectorId(5), None, None), (None, -1));
}

#[test]
fn compaction_pass_keeps_every_id_once() {
    let mut columns = StrMap::new();
    let outer = CellCoord::new(0, 1, 1);
    let inner = CellCoord::new(1, 1, 1);
    let mut a = ColumnStack::new(ColumnPath::from_cell(outer), QuantTier::U8);
    a.push_encoded(VectorId(1), vec![1]);
    a.push_encoded(VectorId(2), vec![2]);
    columns.insert(outer.to_string(), a);
    let mut b = ColumnStack::new(ColumnPath::from_cell(inner), QuantTier::U16);
    b.push_encoded(VectorId(3), vec![3, 3]);
    columns.insert(inner.to_string(), b);
    let mut vectors = HashMap::new();
    for i in 1..4u8 {
        vectors.insert(i as u64, encoded(&[i]));
    }
    let mut engine = CompactionEngine::new();
    engine.collapse_empty_inner(3, &mut columns);
    engine.promote_hot(&mut columns, &vectors, &vec![inner.to_string()], 3);
    engine.demote_cold(&mut columns, &vectors, &vec![outer.to_string(), inner.to_string()], 3);
    engine.split_tall_columns(&mut columns, &vectors, &StrMap::new(), 8, 3);
    let mut all: Vec<u64> = Vec::new();
    for i in 0..columns.len() {
        for id in columns.value_at(i).ids.iter() {
            all.push(id.0);
        }
    }
    all.sort();
    assert_eq!(all, vec![1, 2, 3]);
    assert_eq!(columns.get("0:1:1").unwrap().ids, vec![VectorId(2), VectorId(3)]);
    assert!(columns.get("1:1:1").unwrap().ids.contains(&VectorId(1)));
}
