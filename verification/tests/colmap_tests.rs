use topolsea::colmap::{columns_holding, place_vector, remove_vector, restore_from_segments};
use topolsea::column::ColumnStack;
use topolsea::compact::EncodedVector;
use topolsea::grid::{CellCoord, ColumnPath};
use topolsea::quant::QuantTier;
use topolsea::strmap::StrMap;
use topolsea::types::VectorId;

fn enc(b: u8) -> EncodedVector {
    EncodedVector { u8_code: vec![b], u16_code: vec![b, b], f32_code: vec![b, b, b, b] }
}

#[test]
fn placing_creates_the_column_at_its_layer_tier() {
    let mut cols: StrMap<ColumnStack> = StrMap::new();
    let cell = CellCoord::new(0, 2, 3);
    place_vector(&mut cols, cell, 4, VectorId(7), &enc(9));
    let col = cols.get("0:2:3").expect("column created");
    assert_eq!(col.ids, vec![VectorId(7)]);
    assert_eq!(col.quant_tier, QuantTier::for_layer(0, 4));
    assert_eq!(col.quant_tier, QuantTier::U8);
    assert_eq!(col.quantized, vec![vec![9u8]]);
    assert_eq!(col.cell(), Some(&cell));

    // A second vector lands on top of the same column.
    place_vector(&mut cols, cell, 4, VectorId(8), &enc(1));
    let col = cols.get("0:2:3").unwrap();
    assert_eq!(col.ids, vec![VectorId(7), VectorId(8)]);
    assert_eq!(cols.len(), 1);
}

#[test]
fn deepest_columns_keep_full_precision() {
    let mut cols: StrMap<ColumnStack> = StrMap::new();
    place_vector(&mut cols, CellCoord::new(3, 0, 0), 4, VectorId(1), &enc(5));
    let col = cols.get("3:0:0").unwrap();
    assert_eq!(col.quant_tier, QuantTier::F32);
    assert_eq!(col.quantized, vec![vec![5u8, 5, 5, 5]]);
    place_vector(&mut cols, CellCoord::new(1, 0, 0), 4, VectorId(2), &enc(6));
    assert_eq!(cols.get("1:0:0").unwrap().quantized, vec![vec![6u8, 6]]);
}

#[test]
fn removing_drops_columns_left_empty() {
    let mut cols: StrMap<ColumnStack> = StrMap::new();
    place_vector(&mut cols, CellCoord::new(0, 0, 0), 2, VectorId(1), &enc(1));
    place_vector(&mut cols, CellCoord::new(0, 0, 0), 2, VectorId(2), &enc(2));
    place_vector(&mut cols, CellCoord::new(1, 1, 1), 2, VectorId(1), &enc(1));
    remove_vector(&mut cols, VectorId(1));
    assert_eq!(cols.len(), 1);
    assert_eq!(cols.get("0:0:0").unwrap().ids, vec![VectorId(2)]);
    assert!(cols.get("1:1:1").is_none());
    remove_vector(&mut cols, VectorId(2));
    assert!(cols.is_empty());
}

#[test]
fn place_then_remove_restores_the_map() {
    let mut cols: StrMap<ColumnStack> = StrMap::new();
    place_vector(&mut cols, CellCoord::new(0, 4, 4), 3, VectorId(10), &enc(3));
    place_vector(&mut cols, CellCoord::new(0, 4, 4), 3, VectorId(99), &enc(4));
    place_vector(&mut cols, CellCoord::new(2, 0, 1), 3, VectorId(42), &enc(4));
    remove_vector(&mut cols, VectorId(99));
    remove_vector(&mut cols, VectorId(42));
    assert_eq!(cols.len(), 1);
    let col = cols.get("0:4:4").unwrap();
    assert_eq!(col.ids, vec![VectorId(10)]);
    assert_eq!(col.quantized.len(), 1);
}

#[test]
fn serving_columns_are_those_holding_a_result() {
    let mut cols: StrMap<ColumnStack> = StrMap::new();
    place_vector(&mut cols, CellCoord::new(0, 0, 0), 2, VectorId(1), &enc(1));
    place_vector(&mut cols, CellCoord::new(0, 0, 1), 2, VectorId(2), &enc(1));
    place_vector(&mut cols, CellCoord::new(1, 0, 0), 2, VectorId(3), &enc(1));
    let mut keys = columns_holding(&cols, &vec![VectorId(3), VectorId(1), VectorId(77)]);
    keys.sort();
    assert_eq!(keys, vec!["0:0:0".to_string(), "1:0:0".to_string()]);
    assert!(columns_holding(&cols, &vec![]).is_empty());
}

#[test]
fn restore_keys_stacks_by_their_cell() {
    let a = ColumnStack::new(ColumnPath::from_cell(CellCoord::new(0, 1, 2)), QuantTier::F32);
    let mut b = ColumnStack::new(ColumnPath::from_cell(CellCoord::new(1, 3, 4)), QuantTier::U16);
    b.push_encoded(VectorId(5), vec![1, 2]);
    let no_cell = ColumnStack::new(ColumnPath(Vec::new()), QuantTier::U8);
    let mut later = ColumnStack::new(ColumnPath::from_cell(CellCoord::new(0, 1, 2)), QuantTier::F32);
    later.push_encoded(VectorId(6), vec![0, 0, 0, 0]);
    let cols = restore_from_segments(vec![(0, vec![a, no_cell]), (1, vec![b]), (0, vec![later])]);
    assert_eq!(cols.len(), 2);
    assert_eq!(cols.get("0:1:2").unwrap().ids, vec![VectorId(6)]);
    assert_eq!(cols.get("1:3:4").unwrap().ids, vec![VectorId(5)]);
}
