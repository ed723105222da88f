use topolsea::filter::Filter;
use topolsea::inverted::InvertedIndex;
use topolsea::json::{JsonNumber, JsonValue, NumberRepr};
use topolsea::store::{empty_metadata, MetadataStore};
use topolsea::strmap::StrMap;
use topolsea::types::VectorId;

fn order_key(f: f64) -> u64 {
    let f = if f == 0.0 { 0.0 } else { f };
    let b = f.to_bits();
    if b >> 63 == 0 {
        b | (1u64 << 63)
    } else {
        !b
    }
}

fn s(t: &str) -> JsonValue {
    JsonValue::String(t.to_string())
}

fn n(v: u64) -> JsonValue {
    JsonValue::Number(JsonNumber { repr: NumberRepr::PosInt(v), order_key: order_key(v as f64) })
}

fn obj(entries: Vec<(&str, JsonValue)>) -> JsonValue {
    let mut m = StrMap::new();
    for (k, v) in entries {
        m.insert(k.to_string(), v);
    }
    JsonValue::Object(m)
}

fn arr(items: Vec<JsonValue>) -> JsonValue {
    JsonValue::Array(items)
}

#[test]
fn eq_and_remove() {
    let mut inv = InvertedIndex::new();
    inv.upsert(VectorId(1), &obj(vec![("tag", s("a")), ("n", n(1))]));
    inv.upsert(VectorId(2), &obj(vec![("tag", s("b")), ("n", n(1))]));
    let a = inv.ids_eq("tag", &s("a")).unwrap();
    assert!(InvertedIndex::contains_id(&a, VectorId(1)));
    assert!(!InvertedIndex::contains_id(&a, VectorId(2)));
    inv.remove(VectorId(1));
    let a2 = inv.ids_eq("tag", &s("a")).unwrap();
    assert!(!InvertedIndex::contains_id(&a2, VectorId(1)));
}

#[test]
fn inverted_lookups() {
    let mut inv = InvertedIndex::new();
    inv.upsert(VectorId(1), &obj(vec![("tag", s("a")), ("n", n(1))]));
    inv.upsert(VectorId(2), &obj(vec![("tag", s("b")), ("n", n(2))]));
    inv.upsert(VectorId(3), &obj(vec![("tag", s("a"))]));
    assert!(inv.ids_eq("missing", &s("a")).is_none());
    assert!(inv.ids_eq("tag", &s("zzz")).is_none());
    let both = inv.ids_in("tag", &[s("a"), s("b"), s("q")]).unwrap();
    assert_eq!(both.len(), 3);
    assert!(inv.ids_in("missing", &[s("a")]).is_none());
    let all_n = inv.ids_field("n").unwrap();
    assert_eq!(all_n.len(), 2);
    assert!(all_n.contains(1) && all_n.contains(2));
    assert!(inv.ids_field("missing").is_none());
    // re-upserting moves the id to its new value
    inv.upsert(VectorId(3), &obj(vec![("tag", s("b"))]));
    let a = inv.ids_eq("tag", &s("a")).unwrap();
    assert!(!a.contains(3));
    assert!(inv.ids_eq("tag", &s("b")).unwrap().contains(3));
    // a non-object document indexes nothing but still drops the id
    inv.upsert(VectorId(3), &s("scalar"));
    assert!(!inv.ids_eq("tag", &s("b")).unwrap().contains(3));
    inv.clear();
    assert!(inv.ids_field("tag").is_none());
}

#[test]
fn ids_index_by_low_32_bits() {
    let mut inv = InvertedIndex::new();
    inv.upsert(VectorId((1u64 << 32) + 5), &obj(vec![("tag", s("a"))]));
    let a = inv.ids_eq("tag", &s("a")).unwrap();
    assert!(InvertedIndex::contains_id(&a, VectorId(5)));
}

#[test]
fn remove_is_o1_and_keeps_maps_consistent() {
    let mut store = MetadataStore::new();
    store.upsert("a", VectorId(1), obj(vec![("tag", s("x"))]));
    store.upsert("b", VectorId(2), obj(vec![("tag", s("y"))]));
    store.upsert("c", VectorId(3), obj(vec![("tag", s("z"))]));

    assert_eq!(store.internal_id_for("b"), Some(VectorId(2)));
    store.remove("b");
    assert!(store.get("b").is_none());
    assert!(store.internal_id_for("b").is_none());
    assert_eq!(store.external_id_for(VectorId(2)), None);
    assert_eq!(store.len(), 2);

    assert_eq!(store.internal_id_for("a"), Some(VectorId(1)));
    assert_eq!(store.external_id_for_reverse("c"), Some("3"));
}

#[test]
fn and_or_eligible_ids() {
    let mut store = MetadataStore::new();
    store.upsert("a", VectorId(1), obj(vec![("tag", s("x")), ("n", n(1))]));
    store.upsert("b", VectorId(2), obj(vec![("tag", s("y")), ("n", n(10))]));
    store.upsert("c", VectorId(3), obj(vec![("tag", s("x")), ("n", n(10))]));

    let and = Filter::from_json(obj(vec![(
        "$and",
        arr(vec![obj(vec![("tag", s("x"))]), obj(vec![("n", obj(vec![("$in", arr(vec![n(10)]))]))])]),
    )]))
    .unwrap();
    let ids = store.eligible_ids(&and).unwrap();
    assert!(ids.contains(3));
    assert_eq!(ids.len(), 1);

    let or = Filter::from_json(obj(vec![(
        "$or",
        arr(vec![obj(vec![("tag", s("y"))]), obj(vec![("tag", s("missing"))])]),
    )]))
    .unwrap();
    let ids = store.eligible_ids(&or).unwrap();
    assert!(ids.contains(2));
    assert_eq!(ids.len(), 1);

    let or2 = Filter::from_json(obj(vec![(
        "$or",
        arr(vec![obj(vec![("tag", s("y"))]), obj(vec![("n", n(1))])]),
    )]))
    .unwrap();
    let ids = store.eligible_ids(&or2).unwrap();
    assert!(ids.contains(2) && ids.contains(1));
    assert_eq!(ids.len(), 2);

    let multi = Filter::from_json(obj(vec![("tag", s("x")), ("n", obj(vec![("$in", arr(vec![n(1), n(10)]))]))])).unwrap();
    let ids = store.eligible_ids(&multi).unwrap();
    assert_eq!(ids.len(), 2);
}

#[test]
fn eligible_ids_ne_and_ranges() {
    let mut store = MetadataStore::new();
    store.upsert("a", VectorId(1), obj(vec![("tag", s("x"))]));
    store.upsert("b", VectorId(2), obj(vec![("tag", s("y"))]));
    store.upsert("c", VectorId(3), obj(vec![("other", s("z"))]));
    let ne = Filter::from_json(obj(vec![("tag", obj(vec![("$ne", s("x"))]))])).unwrap();
    let ids = store.eligible_ids(&ne).unwrap();
    // "c" has no tag at all, so it matches `$ne` too.
    assert_eq!(ids.len(), 2);
    assert!(ids.contains(2) && ids.contains(3));
    let ne_unindexed = Filter::from_json(obj(vec![("color", obj(vec![("$ne", s("red"))]))])).unwrap();
    assert_eq!(store.eligible_ids(&ne_unindexed).unwrap().len(), 3);
    let gt = Filter::from_json(obj(vec![("n", obj(vec![("$gt", n(1))]))])).unwrap();
    assert!(store.eligible_ids(&gt).is_none());
    let empty_and = Filter::from_json(obj(vec![("$and", arr(vec![]))])).unwrap();
    assert!(store.eligible_ids(&empty_and).is_none());
    let empty_or = Filter::from_json(obj(vec![("$or", arr(vec![]))])).unwrap();
    assert_eq!(store.eligible_ids(&empty_or).unwrap().len(), 0);
}

#[test]
fn upsert_rebinds_ids_both_ways() {
    let mut store = MetadataStore::new();
    store.upsert("a", VectorId(1), obj(vec![("tag", s("x"))]));
    // "a" moves to id 5: id 1 loses its reverse entry and its index entries
    store.upsert("a", VectorId(5), obj(vec![("tag", s("x"))]));
    assert_eq!(store.external_id_for(VectorId(1)), None);
    assert_eq!(store.external_id_for(VectorId(5)), Some("a"));
    let x = store.inverted().ids_eq("tag", &s("x")).unwrap();
    assert!(!x.contains(1) && x.contains(5));
    // id 5 is given to "b": "a" loses its forward entry
    store.upsert("b", VectorId(5), obj(vec![("tag", s("y"))]));
    assert!(store.internal_id_for("a").is_none());
    assert_eq!(store.internal_id_for("b"), Some(VectorId(5)));
    assert_eq!(store.external_id_for(VectorId(5)), Some("b"));
    assert_eq!(store.len(), 2);
    assert!(!store.is_empty());
}

#[test]
fn persist_and_load() {
    let mut store = MetadataStore::new();
    store.upsert("a", VectorId(1), obj(vec![("tag", s("x"))]));
    store.upsert("b", VectorId(2), obj(vec![("tag", s("y"))]));
    let mut persisted = store.to_persisted();
    let mut ids = StrMap::new();
    for (k, v) in store.id_mappings() {
        ids.insert(k, JsonValue::String(v));
    }
    persisted.insert("__id_map__".to_string(), JsonValue::Object(ids));
    let loaded = MetadataStore::load_from_persisted(persisted);
    assert_eq!(loaded.len(), 2);
    assert_eq!(loaded.internal_id_for("b"), Some(VectorId(2)));
    assert_eq!(loaded.external_id_for(VectorId(1)), Some("a"));
    assert!(loaded.inverted().ids_eq("tag", &s("y")).unwrap().contains(2));
    let mut ext = loaded.external_ids();
    ext.sort();
    assert_eq!(ext, vec!["a".to_string(), "b".to_string()]);
}

#[test]
fn load_ignores_malformed_id_map() {
    let mut persisted = StrMap::new();
    persisted.insert("a".to_string(), obj(vec![("tag", s("x"))]));
    let mut ids = StrMap::new();
    ids.insert("1".to_string(), s("a"));
    ids.insert("2".to_string(), n(7));
    persisted.insert("__id_map__".to_string(), JsonValue::Object(ids));
    let loaded = MetadataStore::load_from_persisted(persisted);
    assert_eq!(loaded.len(), 1);
    assert!(loaded.internal_id_for("a").is_none());
    assert!(loaded.id_mappings().is_empty());

    let mut persisted = StrMap::new();
    persisted.insert("a".to_string(), obj(vec![("tag", s("x"))]));
    let mut ids = StrMap::new();
    ids.insert("not-a-number".to_string(), s("a"));
    ids.insert("+4".to_string(), s("a"));
    persisted.insert("__id_map__".to_string(), JsonValue::Object(ids));
    let loaded = MetadataStore::load_from_persisted(persisted);
    assert_eq!(loaded.internal_id_for("a"), Some(VectorId(4)));
    assert_eq!(loaded.id_mappings().len(), 2);
}

#[test]
fn empty_metadata_is_empty_object() {
    match empty_metadata() {
        JsonValue::Object(m) => assert!(m.is_empty()),
        _ => panic!("expected object"),
    }
}

#[test]
fn ne_covers_documents_without_the_field() {
    let mut store = MetadataStore::new();
    store.upsert("a", VectorId(1), obj(vec![("tag", s("x"))]));
    store.upsert("b", VectorId(2), obj(vec![]));
    let ne = Filter::from_json(obj(vec![("tag", obj(vec![("$ne", s("y"))]))])).unwrap();
    let ids = store.eligible_ids(&ne).unwrap();
    assert!(ids.contains(1) && ids.contains(2));
    assert_eq!(ids.len(), 2);
    assert!(ne.matches(store.get("b").unwrap()));
}

#[test]
fn eligible_sets_are_the_matching_documents() {
    let mut store = MetadataStore::new();
    store.upsert("a", VectorId(1), obj(vec![("tag", s("x")), ("n", n(1))]));
    store.upsert("b", VectorId(2), obj(vec![("tag", s("y")), ("n", n(10))]));
    store.upsert("c", VectorId(3), obj(vec![("n", n(10))]));
    store.upsert("d", VectorId(4), obj(vec![]));
    store.remove("d");
    store.upsert("e", VectorId(5), obj(vec![("tag", s("x"))]));
    let float = JsonValue::Number(JsonNumber { repr: NumberRepr::Float("10.0".to_string()), order_key: order_key(10.0) });
    store.upsert(
        "f",
        VectorId(6),
        obj(vec![("tag", arr(vec![s("x")])), ("n", float), ("meta", obj(vec![("tag", s("y"))]))]),
    );
    let filters = vec![
        obj(vec![("tag", s("x"))]),
        obj(vec![("tag", obj(vec![("$ne", s("x"))]))]),
        obj(vec![("n", obj(vec![("$in", arr(vec![n(1), n(10)]))]))]),
        obj(vec![("$or", arr(vec![obj(vec![("tag", s("y"))]), obj(vec![("n", obj(vec![("$ne", n(10))]))])]))]),
        obj(vec![("$and", arr(vec![obj(vec![("n", n(10))]), obj(vec![("tag", obj(vec![("$ne", s("y"))]))])]))]),
    ];
    for doc in filters {
        let f = Filter::from_json(doc).unwrap();
        let ids = store.eligible_ids(&f).unwrap();
        for ext in ["a", "b", "c", "e", "f"] {
            let id = store.internal_id_for(ext).unwrap();
            let m = store.get(ext).unwrap();
            assert_eq!(ids.contains(id.0 as u32), f.matches(m), "filter on {ext}");
        }
        assert!(!ids.contains(4));
    }
}

#[test]
fn eligible_sets_match_array_values() {
    let mut store = MetadataStore::new();
    store.upsert("a", VectorId(1), obj(vec![("tags", arr(vec![s("x"), s("y,z")]))]));
    store.upsert("b", VectorId(2), obj(vec![("tags", arr(vec![s("x,\"y"), s("z")]))]));
    store.upsert("c", VectorId(3), obj(vec![("tags", arr(vec![s("x"), arr(vec![n(1), n(2)])]))]));
    store.upsert("d", VectorId(4), obj(vec![("tags", s("x"))]));
    store.upsert("e", VectorId(5), obj(vec![]));
    store.upsert("f", VectorId(6), obj(vec![("tags", arr(vec![]))]));
    let filters = vec![
        obj(vec![("tags", arr(vec![s("x"), s("y,z")]))]),
        obj(vec![("tags", obj(vec![("$eq", arr(vec![s("x,\"y"), s("z")]))]))]),
        obj(vec![("tags", obj(vec![("$ne", arr(vec![s("x"), s("y,z")]))]))]),
        obj(vec![("tags", arr(vec![s("x"), arr(vec![n(1), n(2)])]))]),
        obj(vec![("tags", obj(vec![("$in", arr(vec![arr(vec![]), s("x"), arr(vec![s("z")])]))]))]),
        obj(vec![("tags", arr(vec![]))]),
    ];
    let expected: Vec<Vec<u32>> = vec![vec![1], vec![2], vec![2, 3, 4, 5, 6], vec![3], vec![4, 6], vec![6]];
    for (doc, want) in filters.into_iter().zip(expected) {
        let f = Filter::from_json(doc).unwrap();
        let ids = store.eligible_ids(&f).unwrap();
        let got: Vec<u32> = ids.iter().collect();
        assert_eq!(got, want);
        for ext in ["a", "b", "c", "d", "e", "f"] {
            let id = store.internal_id_for(ext).unwrap();
            let m = store.get(ext).unwrap();
            assert_eq!(ids.contains(id.0 as u32), f.matches(m), "filter on {ext}");
        }
    }
}

#[test]
fn eligible_sets_match_object_values() {
    let mut store = MetadataStore::new();
    store.upsert("a", VectorId(1), obj(vec![("meta", obj(vec![("a", n(1)), ("b", s("x"))]))]));
    store.upsert("b", VectorId(2), obj(vec![("meta", obj(vec![("a", n(1))]))]));
    store.upsert(
        "c",
        VectorId(3),
        obj(vec![("meta", obj(vec![("a", n(1)), ("b", obj(vec![("c", arr(vec![n(1), s("y}")]))]))]))]),
    );
    store.upsert("d", VectorId(4), obj(vec![("meta", arr(vec![obj(vec![("a", n(1))])]))]));
    store.upsert("e", VectorId(5), obj(vec![]));
    let filters = vec![
        obj(vec![("meta", obj(vec![("$eq", obj(vec![("a", n(1)), ("b", s("x"))]))]))]),
        obj(vec![("meta", obj(vec![("$ne", obj(vec![("a", n(1))]))]))]),
        obj(vec![(
            "meta",
            obj(vec![(
                "$in",
                arr(vec![obj(vec![("a", n(1))]), obj(vec![("a", n(1)), ("b", obj(vec![("c", arr(vec![n(1), s("y}")]))]))])]),
            )]),
        )]),
        obj(vec![("meta", arr(vec![obj(vec![("a", n(1))])]))]),
    ];
    let expected: Vec<Vec<u32>> = vec![vec![1], vec![1, 3, 4, 5], vec![2, 3], vec![4]];
    for (doc, want) in filters.into_iter().zip(expected) {
        let f = Filter::from_json(doc).unwrap();
        let ids = store.eligible_ids(&f).unwrap();
        let got: Vec<u32> = ids.iter().collect();
        assert_eq!(got, want);
        for ext in ["a", "b", "c", "d", "e"] {
            let id = store.internal_id_for(ext).unwrap();
            let m = store.get(ext).unwrap();
            assert_eq!(ids.contains(id.0 as u32), f.matches(m), "filter on {ext}");
        }
    }
}
