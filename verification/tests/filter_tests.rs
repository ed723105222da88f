use topolsea::filter::{Filter, FilterOp, MetadataError};
use topolsea::json::{JsonNumber, JsonValue, NumberRepr};
use topolsea::strmap::StrMap;

fn order_key(f: f64) -> u64 {
    let f = if f == 0.0 { 0.0 } else { f };
    let b = f.to_bits();
    if b >> 63 == 0 {
        b | (1u64 << 63)
    } else {
        !b
    }
}

fn s(t: &str) -> JsonValue {
    JsonValue::String(t.to_string())
}

fn n(v: i64) -> JsonValue {
    let repr = if v >= 0 { NumberRepr::PosInt(v as u64) } else { NumberRepr::NegInt(v) };
    JsonValue::Number(JsonNumber { repr, order_key: order_key(v as f64) })
}

fn fl(v: f64) -> JsonValue {
    JsonValue::Number(JsonNumber { repr: NumberRepr::Float(format!("{v:?}")), order_key: order_key(v) })
}

fn obj(entries: Vec<(&str, JsonValue)>) -> JsonValue {
    let mut m = StrMap::new();
    for (k, v) in entries {
        m.insert(k.to_string(), v);
    }
    JsonValue::Object(m)
}

fn arr(items: Vec<JsonValue>) -> JsonValue {
    JsonValue::Array(items)
}

#[test]
fn eq_filter() {
    let f = Filter::from_json(obj(vec![("topic", s("rust"))])).unwrap();
    assert!(f.matches(&obj(vec![("topic", s("rust")), ("n", n(1))])));
    assert!(!f.matches(&obj(vec![("topic", s("python"))])));
}

#[test]
fn ne_gt_in_filters() {
    let ne = Filter::from_json(obj(vec![("tag", obj(vec![("$ne", s("alpha"))]))])).unwrap();
    assert!(ne.matches(&obj(vec![("tag", s("beta"))])));
    assert!(!ne.matches(&obj(vec![("tag", s("alpha"))])));
    assert!(ne.matches(&obj(vec![])));

    let gt = Filter::from_json(obj(vec![("n", obj(vec![("$gt", n(5))]))])).unwrap();
    assert!(gt.matches(&obj(vec![("n", n(6))])));
    assert!(!gt.matches(&obj(vec![("n", n(5))])));

    let gte = Filter::from_json(obj(vec![("n", obj(vec![("$gte", n(5))]))])).unwrap();
    assert!(gte.matches(&obj(vec![("n", n(5))])));

    let lt = Filter::from_json(obj(vec![("n", obj(vec![("$lt", n(5))]))])).unwrap();
    assert!(lt.matches(&obj(vec![("n", n(4))])));

    let lte = Filter::from_json(obj(vec![("n", obj(vec![("$lte", n(5))]))])).unwrap();
    assert!(lte.matches(&obj(vec![("n", n(5))])));

    let inn = Filter::from_json(obj(vec![("tag", obj(vec![("$in", arr(vec![s("a"), s("b")]))]))])).unwrap();
    assert!(inn.matches(&obj(vec![("tag", s("a"))])));
    assert!(!inn.matches(&obj(vec![("tag", s("c"))])));
}

#[test]
fn and_or_with_ops() {
    let f = Filter::from_json(obj(vec![(
        "$and",
        arr(vec![
            obj(vec![("tag", obj(vec![("$ne", s("x"))]))]),
            obj(vec![("n", obj(vec![("$gte", n(1))]))]),
        ]),
    )]))
    .unwrap();
    assert!(f.matches(&obj(vec![("tag", s("y")), ("n", n(2))])));
    assert!(!f.matches(&obj(vec![("tag", s("x")), ("n", n(2))])));
}

#[test]
fn or_matches_any_branch() {
    let f = Filter::from_json(obj(vec![(
        "$or",
        arr(vec![obj(vec![("tag", s("a"))]), obj(vec![("tag", s("b"))])]),
    )]))
    .unwrap();
    assert!(f.matches(&obj(vec![("tag", s("b"))])));
    assert!(!f.matches(&obj(vec![("tag", s("c"))])));
    let empty_or = Filter::from_json(obj(vec![("$or", arr(vec![]))])).unwrap();
    assert!(!empty_or.matches(&obj(vec![("tag", s("a"))])));
    let empty_and = Filter::from_json(obj(vec![("$and", arr(vec![]))])).unwrap();
    assert!(empty_and.matches(&obj(vec![])));
}

#[test]
fn eq_operator_reads_as_shorthand() {
    let f = Filter::from_json(obj(vec![("tag", obj(vec![("$eq", s("a"))]))])).unwrap();
    match f {
        Filter::Eq { field, value } => {
            assert_eq!(field, "tag");
            assert!(matches!(value, JsonValue::String(ref t) if t == "a"));
        }
        _ => panic!("expected Eq"),
    }
}

#[test]
fn multi_key_object_is_conjunction_in_order() {
    let f = Filter::from_json(obj(vec![("tag", s("x")), ("n", obj(vec![("$gt", n(1))]))])).unwrap();
    match &f {
        Filter::And(parts) => {
            assert_eq!(parts.len(), 2);
            assert!(matches!(&parts[0], Filter::Eq { field, .. } if field == "tag"));
            assert!(matches!(&parts[1], Filter::Cmp { field, op: FilterOp::Gt, .. } if field == "n"));
        }
        _ => panic!("expected And"),
    }
    assert!(f.matches(&obj(vec![("tag", s("x")), ("n", n(2))])));
    assert!(!f.matches(&obj(vec![("tag", s("x")), ("n", n(1))])));
}

#[test]
fn several_operators_on_one_field() {
    let f = Filter::from_json(obj(vec![("n", obj(vec![("$gt", n(1)), ("$lt", n(5))]))])).unwrap();
    assert!(matches!(&f, Filter::And(parts) if parts.len() == 2));
    assert!(f.matches(&obj(vec![("n", n(3))])));
    assert!(!f.matches(&obj(vec![("n", n(5))])));
    assert!(!f.matches(&obj(vec![("n", n(1))])));
}

#[test]
fn error_variants() {
    assert!(matches!(Filter::from_json(obj(vec![("$and", s("x"))])), Err(MetadataError::AndNotArray)));
    assert!(matches!(Filter::from_json(obj(vec![("$or", n(1))])), Err(MetadataError::OrNotArray)));
    match Filter::from_json(obj(vec![("a", n(1)), ("$or", arr(vec![]))])) {
        Err(MetadataError::UnexpectedTopLevelOperator(k)) => assert_eq!(k, "$or"),
        other => panic!("unexpected {other:?}"),
    }
    assert!(matches!(Filter::from_json(obj(vec![])), Err(MetadataError::UnsupportedExpression)));
    assert!(matches!(Filter::from_json(s("x")), Err(MetadataError::UnsupportedExpression)));
    assert!(matches!(
        Filter::from_json(obj(vec![("tag", obj(vec![("$in", s("a"))]))])),
        Err(MetadataError::InValueNotArray)
    ));
    match Filter::from_json(obj(vec![("tag", obj(vec![("$regex", s("a"))]))])) {
        Err(MetadataError::UnsupportedOperator(k)) => assert_eq!(k, "$regex"),
        other => panic!("unexpected {other:?}"),
    }
    // a bad sub-filter inside $and is reported
    assert!(matches!(
        Filter::from_json(obj(vec![("$and", arr(vec![obj(vec![("x", n(1))]), s("bad")]))])),
        Err(MetadataError::UnsupportedExpression)
    ));
}

#[test]
fn ordered_comparison_on_strings_and_mixed_kinds() {
    let f = Filter::from_json(obj(vec![("name", obj(vec![("$lt", s("m"))]))])).unwrap();
    assert!(f.matches(&obj(vec![("name", s("apple"))])));
    assert!(!f.matches(&obj(vec![("name", s("zebra"))])));
    assert!(f.matches(&obj(vec![("name", s("l"))])));
    assert!(!f.matches(&obj(vec![("name", s("m"))])));
    // a number never orders against a string
    assert!(!f.matches(&obj(vec![("name", n(1))])));
    // floats and integers order by value
    let g = Filter::from_json(obj(vec![("x", obj(vec![("$gt", n(1))]))])).unwrap();
    assert!(g.matches(&obj(vec![("x", fl(1.5))])));
    assert!(!g.matches(&obj(vec![("x", fl(0.5))])));
    let h = Filter::from_json(obj(vec![("x", obj(vec![("$lt", n(0))]))])).unwrap();
    assert!(h.matches(&obj(vec![("x", n(-3))])));
}

#[test]
fn integer_and_float_are_not_equal_values() {
    let f = Filter::from_json(obj(vec![("x", n(1))])).unwrap();
    assert!(f.matches(&obj(vec![("x", n(1))])));
    assert!(!f.matches(&obj(vec![("x", fl(1.0))])));
}

#[test]
fn to_json_round_trips() {
    let src = obj(vec![(
        "$or",
        arr(vec![
            obj(vec![("tag", s("a"))]),
            obj(vec![("n", obj(vec![("$gte", n(2))]))]),
            obj(vec![("$and", arr(vec![obj(vec![("k", obj(vec![("$in", arr(vec![n(1), n(2)]))]))])]))]),
        ]),
    )]);
    let f = Filter::from_json(src).unwrap();
    let doc_yes = obj(vec![("k", n(2))]);
    let doc_no = obj(vec![("k", n(3)), ("n", n(1))]);
    let expected_yes = f.matches(&doc_yes);
    let expected_no = f.matches(&doc_no);
    let back = Filter::from_json(f.to_json()).unwrap();
    assert_eq!(back.matches(&doc_yes), expected_yes);
    assert_eq!(back.matches(&doc_no), expected_no);
    assert!(expected_yes);
    assert!(!expected_no);
    match back {
        Filter::Or(parts) => {
            assert_eq!(parts.len(), 3);
            assert!(matches!(&parts[1], Filter::Cmp { field, op: FilterOp::Gte, .. } if field == "n"));
            assert!(matches!(&parts[2], Filter::And(inner) if inner.len() == 1));
        }
        _ => panic!("expected Or"),
    }
}

#[test]
fn to_json_shapes() {
    let f = Filter::Cmp { field: "n".to_string(), op: FilterOp::Lte, value: n(3) };
    match f.to_json() {
        JsonValue::Object(m) => {
            assert_eq!(m.len(), 1);
            assert_eq!(m.key_at(0), "n");
            match m.value_at(0) {
                JsonValue::Object(inner) => assert_eq!(inner.key_at(0), "$lte"),
                _ => panic!("expected operator object"),
            }
        }
        _ => panic!("expected object"),
    }
}

#[test]
fn parse_is_deterministic() {
    let doc = || obj(vec![("a", n(1)), ("b", obj(vec![("$ne", s("x")), ("$lt", n(3))]))]);
    let f = Filter::from_json(doc()).unwrap();
    let g = Filter::from_json(doc()).unwrap();
    let shape = |x: &Filter| match x {
        Filter::And(parts) => parts
            .iter()
            .map(|p| match p {
                Filter::Eq { field, .. } => format!("eq:{field}"),
                Filter::Cmp { field, op, .. } => format!("cmp:{field}:{op:?}"),
                Filter::And(inner) => format!("and:{}", inner.len()),
                Filter::Or(inner) => format!("or:{}", inner.len()),
            })
            .collect::<Vec<_>>(),
        _ => vec![],
    };
    assert_eq!(shape(&f), shape(&g));
    assert_eq!(shape(&f), vec!["eq:a".to_string(), "and:2".to_string()]);
}
