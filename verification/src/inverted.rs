//! The payload inverted index: field → value → the ids whose metadata holds
//! that value under that field.

use vstd::prelude::*;
use roaring::RoaringBitmap;
use crate::bitmap::{
    bitmap_clone, bitmap_contains, bitmap_ids, bitmap_insert, bitmap_new, bitmap_remove,
    bitmap_union_with,
};
use crate::json::{value_key, value_key_text, JsonValue};
use crate::strmap::{
    has_key, key_index, keys_distinct, lemma_pairs_map_lookup, lemma_pairs_map_same_keys,
    pairs_map, reversed, StrMap,
};
use crate::types::VectorId;

verus! {

/// The 32-bit id under which a vector is indexed: the low 32 bits of its id.
pub open spec fn uid_of(id: VectorId) -> u32 {
    id.0 as u32
}

/// The ids of each value key, as sets.
pub open spec fn bitmaps_view(m: StrMap<RoaringBitmap>) -> Map<Seq<char>, Set<u32>> {
    Map::new(|k: Seq<char>| m@.contains_key(k), |k: Seq<char>| bitmap_ids(m@[k]))
}

/// Every set of a field's map, without `uid`.
pub open spec fn without(m: Map<Seq<char>, Set<u32>>, uid: u32) -> Map<Seq<char>, Set<u32>> {
    Map::new(|k: Seq<char>| m.contains_key(k), |k: Seq<char>| m[k].remove(uid))
}

/// The index with `uid` taken out of every set; every field and value key stays.
pub open spec fn drop_id(v: Map<Seq<char>, Map<Seq<char>, Set<u32>>>, uid: u32) -> Map<
    Seq<char>,
    Map<Seq<char>, Set<u32>>,
> {
    Map::new(|f: Seq<char>| v.contains_key(f), |f: Seq<char>| without(v[f], uid))
}

/// The index with `uid` added under field `f` and value key `k`, creating
/// either when absent.
pub open spec fn add_id(
    v: Map<Seq<char>, Map<Seq<char>, Set<u32>>>,
    uid: u32,
    f: Seq<char>,
    k: Seq<char>,
) -> Map<Seq<char>, Map<Seq<char>, Set<u32>>> {
    let inner = if v.contains_key(f) {
        v[f]
    } else {
        Map::empty()
    };
    let ids = if inner.contains_key(k) {
        inner[k]
    } else {
        Set::empty()
    };
    v.insert(f, inner.insert(k, ids.insert(uid)))
}

/// The index with `uid` added under each field of `es` and the key of its value.
pub open spec fn add_fields(
    v: Map<Seq<char>, Map<Seq<char>, Set<u32>>>,
    uid: u32,
    es: Seq<(String, JsonValue)>,
) -> Map<Seq<char>, Map<Seq<char>, Set<u32>>>
    decreases es.len(),
{
    if es.len() == 0 {
        v
    } else {
        add_id(add_fields(v, uid, es.drop_last()), uid, es.last().0@, value_key_text(es.last().1))
    }
}

/// The index with a document's fields added for `uid`; a document that is
/// not an object adds nothing.
pub open spec fn index_doc(
    v: Map<Seq<char>, Map<Seq<char>, Set<u32>>>,
    uid: u32,
    doc: JsonValue,
) -> Map<Seq<char>, Map<Seq<char>, Set<u32>>> {
    match doc {
        JsonValue::Object(m) => add_fields(v, uid, m.pairs()),
        _ => v,
    }
}

/// The ids under the keys of the given values, taken together.
pub open spec fn ids_of_values(m: Map<Seq<char>, Set<u32>>, vs: Seq<JsonValue>) -> Set<u32> {
    Set::new(
        |x: u32|
            exists|i: int|
                0 <= i < vs.len() && m.contains_key(#[trigger] value_key_text(vs[i]))
                    && m[value_key_text(vs[i])].contains(x),
    )
}

/// All the ids of a field's map.
pub open spec fn ids_of_field(m: Map<Seq<char>, Set<u32>>) -> Set<u32> {
    Set::new(|x: u32| exists|k: Seq<char>| m.contains_key(k) && #[trigger] m[k].contains(x))
}

/// In-memory inverted index over JSON metadata fields.
#[derive(Debug)]
pub struct InvertedIndex {
    fields: StrMap<StrMap<RoaringBitmap>>,
}

fn id_as_u32(id: VectorId) -> (r: u32)
    ensures
        r == uid_of(id),
{
    id.0 as u32
}

impl InvertedIndex {
    /// field → value key → ids.
    pub closed spec fn view(&self) -> Map<Seq<char>, Map<Seq<char>, Set<u32>>> {
        Map::new(|f: Seq<char>| self.fields@.contains_key(f), |f: Seq<char>| bitmaps_view(self.fields@[f]))
    }

    pub fn new() -> (r: Self)
        ensures
            r@ == Map::<Seq<char>, Map<Seq<char>, Set<u32>>>::empty(),
    {
        let r = InvertedIndex { fields: StrMap::new() };
        assert(r@ =~= Map::<Seq<char>, Map<Seq<char>, Set<u32>>>::empty());
        r
    }

    pub fn clear(&mut self)
        ensures
            final(self)@ == Map::<Seq<char>, Map<Seq<char>, Set<u32>>>::empty(),
    {
        self.fields = StrMap::new();
        assert(self@ =~= Map::<Seq<char>, Map<Seq<char>, Set<u32>>>::empty());
    }

    /// Whether the index has a field.
    pub(crate) fn has_field(&self, field: &str) -> (r: bool)
        ensures
            r == self@.contains_key(field@),
    {
        self.fields.contains_key(field)
    }

    /// Whether a bitmap holds an id (by its low 32 bits).
    pub fn contains_id(bitmap: &RoaringBitmap, id: VectorId) -> (r: bool)
        ensures
            r == bitmap_ids(*bitmap).contains(uid_of(id)),
    {
        bitmap_contains(bitmap, id_as_u32(id))
    }

    /// Exact equality look-up: the ids whose `field` holds `value`, when the
    /// index has that field and value key.
    pub fn ids_eq(&self, field: &str, value: &JsonValue) -> (r: Option<RoaringBitmap>)
        ensures
            match r {
                Some(b) => self@.contains_key(field@) && self@[field@].contains_key(
                    value_key_text(*value),
                ) && bitmap_ids(b) == self@[field@][value_key_text(*value)],
                None => !(self@.contains_key(field@) && self@[field@].contains_key(
                    value_key_text(*value),
                )),
            },
    {
        let key = value_key(value);
        match self.fields.get(field) {
            Some(m) => match m.get(key.as_str()) {
                Some(b) => Some(bitmap_clone(b)),
                None => None,
            },
            None => None,
        }
    }
}

/// A field's map with `uid` taken out of every bitmap.
fn drop_from_values(m: StrMap<RoaringBitmap>, uid: u32) -> (r: StrMap<RoaringBitmap>)
    ensures
        bitmaps_view(r) == without(bitmaps_view(m), uid),
{
    let ghost es = m.pairs();
    let entries = m.into_entries();
    let n = entries.len();
    let mut rest = reversed(entries);
    let mut out: Vec<(String, RoaringBitmap)> = Vec::new();
    let mut i: usize = 0;
    while i < n
        invariant
            n == es.len(),
            keys_distinct(es),
            i <= n,
            rest@.len() == n - i,
            forall|j: int| 0 <= j < rest@.len() ==> #[trigger] rest@[j] == es[n - 1 - j],
            out@.len() == i,
            forall|j: int|
                0 <= j < i ==> #[trigger] out@[j].0 == es[j].0 && bitmap_ids(out@[j].1) == bitmap_ids(
                    es[j].1,
                ).remove(uid),
        decreases n - i,
    {
        let (k, mut b) = rest.pop().unwrap();
        assert(k == es[i as int].0 && b == es[i as int].1);
        bitmap_remove(&mut b, uid);
        out.push((k, b));
        i = i + 1;
    }
    proof {
        assert forall|j: int| 0 <= j < es.len() implies #[trigger] out@[j].0@ == es[j].0@ by {}
        lemma_pairs_map_same_keys(es, out@);
    }
    let r = StrMap::from_entries(out);
    proof {
        let old_v = bitmaps_view(m);
        assert forall|k: Seq<char>| #[trigger] bitmaps_view(r).contains_key(k) == without(old_v, uid).contains_key(k) by {}
        assert forall|k: Seq<char>| bitmaps_view(r).contains_key(k) implies #[trigger] bitmaps_view(r)[k] == without(old_v, uid)[k] by {
            lemma_pairs_map_lookup(es, k);
            let j = key_index(es, k);
            assert(es[j].0@ == k);
        }
        assert(bitmaps_view(r) =~= without(old_v, uid));
    }
    r
}

impl InvertedIndex {
    /// Takes an id out of every bitmap; fields and value keys stay.
    pub fn remove(&mut self, id: VectorId)
        ensures
            final(self)@ == drop_id(old(self)@, uid_of(id)),
    {
        let uid = id_as_u32(id);
        let mut fields: StrMap<StrMap<RoaringBitmap>> = StrMap::new();
        std::mem::swap(&mut fields, &mut self.fields);
        let ghost es = fields.pairs();
        let entries = fields.into_entries();
        let n = entries.len();
        let mut rest = reversed(entries);
        let mut out: Vec<(String, StrMap<RoaringBitmap>)> = Vec::new();
        let mut i: usize = 0;
        while i < n
            invariant
                n == es.len(),
                keys_distinct(es),
                i <= n,
                rest@.len() == n - i,
                forall|j: int| 0 <= j < rest@.len() ==> #[trigger] rest@[j] == es[n - 1 - j],
                out@.len() == i,
                forall|j: int|
                    0 <= j < i ==> #[trigger] out@[j].0 == es[j].0 && bitmaps_view(out@[j].1)
                        == without(bitmaps_view(es[j].1), uid),
            decreases n - i,
        {
            let (f, inner) = rest.pop().unwrap();
            assert(f == es[i as int].0 && inner == es[i as int].1);
            let inner2 = drop_from_values(inner, uid);
            out.push((f, inner2));
            i = i + 1;
        }
        proof {
            assert forall|j: int| 0 <= j < es.len() implies #[trigger] out@[j].0@ == es[j].0@ by {}
            lemma_pairs_map_same_keys(es, out@);
        }
        self.fields = StrMap::from_entries(out);
        proof {
            let target = drop_id(old(self)@, uid);
            assert forall|f: Seq<char>| #[trigger] self@.contains_key(f) == target.contains_key(f) by {}
            assert forall|f: Seq<char>| self@.contains_key(f) implies #[trigger] self@[f] == target[f] by {
                lemma_pairs_map_lookup(es, f);
                let j = key_index(es, f);
                assert(es[j].0@ == f);
            }
            assert(self@ =~= target);
        }
    }
}

impl InvertedIndex {
    /// Adds `uid` under field `f` and value key `k`.
    fn add(&mut self, uid: u32, f: String, k: String)
        ensures
            final(self)@ == add_id(old(self)@, uid, f@, k@),
    {
        let mut inner = match self.fields.remove(f.as_str()) {
            Some(m) => m,
            None => StrMap::new(),
        };
        let ghost inner0 = inner;
        let mut b = match inner.remove(k.as_str()) {
            Some(b) => b,
            None => bitmap_new(),
        };
        bitmap_insert(&mut b, uid);
        inner.insert(k, b);
        proof {
            let old_inner = if old(self)@.contains_key(f@) {
                old(self)@[f@]
            } else {
                Map::empty()
            };
            assert(bitmaps_view(inner0) =~= old_inner);
            let ids = if old_inner.contains_key(k@) {
                old_inner[k@]
            } else {
                Set::empty()
            };
            assert(bitmaps_view(inner) =~= old_inner.insert(k@, ids.insert(uid)));
        }
        self.fields.insert(f, inner);
        proof {
            assert(self@ =~= add_id(old(self)@, uid, f@, k@));
        }
    }

    /// Indexes a document for `id`, after taking `id` out of every bitmap: each
    /// field of an object gets `id` under the key of its value.
    pub fn upsert(&mut self, id: VectorId, metadata: &JsonValue)
        ensures
            final(self)@ == index_doc(drop_id(old(self)@, uid_of(id)), uid_of(id), *metadata),
            doc_keys_distinct(*metadata),
    {
        self.remove(id);
        let uid = id_as_u32(id);
        match metadata {
            JsonValue::Object(m) => {
                let ghost base = self@;
                let ghost es = m.pairs();
                let n = m.len();
                let mut i: usize = 0;
                while i < n
                    invariant
                        n == es.len(),
                        es == m.pairs(),
                        i <= n,
                        self@ == add_fields(base, uid, es.take(i as int)),
                    decreases n - i,
                {
                    let f = m.key_at(i).clone();
                    let k = value_key(m.value_at(i));
                    self.add(uid, f, k);
                    proof {
                        assert(es.take(i + 1).drop_last() =~= es.take(i as int));
                    }
                    i = i + 1;
                }
                proof {
                    assert(es.take(n as int) =~= es);
                }
            },
            _ => {},
        }
    }

    /// The ids whose `field` holds one of `values`, when the index has that field.
    pub fn ids_in(&self, field: &str, values: &[JsonValue]) -> (r: Option<RoaringBitmap>)
        ensures
            match r {
                Some(b) => self@.contains_key(field@) && bitmap_ids(b) == ids_of_values(
                    self@[field@],
                    values@,
                ),
                None => !self@.contains_key(field@),
            },
    {
        match self.fields.get(field) {
            Some(map) => {
                let ghost mv = bitmaps_view(*map);
                let mut out = bitmap_new();
                let mut i: usize = 0;
                while i < values.len()
                    invariant
                        i <= values@.len(),
                        mv == bitmaps_view(*map),
                        bitmap_ids(out) == ids_of_values(mv, values@.take(i as int)),
                    decreases values@.len() - i,
                {
                    let key = value_key(&values[i]);
                    let ghost before = bitmap_ids(out);
                    match map.get(key.as_str()) {
                        Some(bm) => {
                            bitmap_union_with(&mut out, bm);
                        },
                        None => {},
                    }
                    proof {
                        let vs = values@.take(i + 1);
                        let ws = values@.take(i as int);
                        assert forall|x: u32| #[trigger] bitmap_ids(out).contains(x) == ids_of_values(mv, vs).contains(x) by {
                            if ids_of_values(mv, vs).contains(x) {
                                let j = choose|j: int|
                                    0 <= j < vs.len() && mv.contains_key(#[trigger] value_key_text(vs[j]))
                                        && mv[value_key_text(vs[j])].contains(x);
                                if j < i {
                                    assert(ws[j] == vs[j]);
                                }
                            }
                            if before.contains(x) {
                                let j = choose|j: int|
                                    0 <= j < ws.len() && mv.contains_key(#[trigger] value_key_text(ws[j]))
                                        && mv[value_key_text(ws[j])].contains(x);
                                assert(ws[j] == vs[j]);
                            }
                            if bitmap_ids(out).contains(x) && !before.contains(x) {
                                assert(vs[i as int] == values@[i as int]);
                            }
                        }
                        assert(bitmap_ids(out) =~= ids_of_values(mv, vs));
                    }
                    i = i + 1;
                }
                proof {
                    assert(values@.take(values@.len() as int) =~= values@);
                }
                Some(out)
            },
            None => None,
        }
    }

    /// All the ids indexed under a field, when the index has it.
    pub fn ids_field(&self, field: &str) -> (r: Option<RoaringBitmap>)
        ensures
            match r {
                Some(b) => self@.contains_key(field@) && bitmap_ids(b) == ids_of_field(self@[field@]),
                None => !self@.contains_key(field@),
            },
    {
        match self.fields.get(field) {
            Some(map) => {
                let ghost es = map.pairs();
                let n = map.len();
                let mut out = bitmap_new();
                let mut i: usize = 0;
                while i < n
                    invariant
                        n == es.len(),
                        es == map.pairs(),
                        keys_distinct(es),
                        i <= n,
                        forall|x: u32| #[trigger] bitmap_ids(out).contains(x) == exists|j: int|
                            0 <= j < i && #[trigger] bitmap_ids(es[j].1).contains(x),
                    decreases n - i,
                {
                    let ghost before = bitmap_ids(out);
                    bitmap_union_with(&mut out, map.value_at(i));
                    proof {
                        assert forall|x: u32| #[trigger] bitmap_ids(out).contains(x) == exists|j: int|
                            0 <= j < i + 1 && #[trigger] bitmap_ids(es[j].1).contains(x) by {
                            if bitmap_ids(out).contains(x) && !before.contains(x) {
                                assert(bitmap_ids(es[i as int].1).contains(x));
                            }
                        }
                    }
                    i = i + 1;
                }
                proof {
                    let mv = bitmaps_view(*map);
                    assert forall|x: u32| #[trigger] bitmap_ids(out).contains(x) == ids_of_field(mv).contains(x) by {
                        if bitmap_ids(out).contains(x) {
                            let j = choose|j: int| 0 <= j < n && #[trigger] bitmap_ids(es[j].1).contains(x);
                            lemma_pairs_map_lookup(es, es[j].0@);
                            let j2 = key_index(es, es[j].0@);
                            assert(j2 == j) by {
                                if j2 != j {
                                    if j2 < j {
                                        assert(es[j2].0@ != es[j].0@);
                                    } else {
                                        assert(es[j].0@ != es[j2].0@);
                                    }
                                }
                            }
                            assert(mv.contains_key(es[j].0@) && mv[es[j].0@].contains(x));
                        }
                        if ids_of_field(mv).contains(x) {
                            let k = choose|k: Seq<char>| mv.contains_key(k) && #[trigger] mv[k].contains(x);
                            lemma_pairs_map_lookup(es, k);
                            let j = key_index(es, k);
                            assert(bitmap_ids(es[j].1).contains(x));
                        }
                    }
                    assert(bitmap_ids(out) =~= ids_of_field(mv));
                }
                Some(out)
            },
            None => None,
        }
    }
}

/// The ids under field `f` and value key `k` (none when either is missing).
pub open spec fn ids_at(v: Map<Seq<char>, Map<Seq<char>, Set<u32>>>, f: Seq<char>, k: Seq<char>) -> Set<u32> {
    if v.contains_key(f) && v[f].contains_key(k) {
        v[f][k]
    } else {
        Set::empty()
    }
}

/// The document is an object holding field `f` with a value whose key is `k`.
pub open spec fn doc_has(doc: JsonValue, f: Seq<char>, k: Seq<char>) -> bool {
    match doc {
        JsonValue::Object(m) => m@.contains_key(f) && value_key_text(m@[f]) == k,
        _ => false,
    }
}

proof fn lemma_add_fields(
    v: Map<Seq<char>, Map<Seq<char>, Set<u32>>>,
    uid: u32,
    es: Seq<(String, JsonValue)>,
    f: Seq<char>,
    k: Seq<char>,
    x: u32,
)
    ensures
        ids_at(add_fields(v, uid, es), f, k).contains(x) <==> (ids_at(v, f, k).contains(x) || (x == uid
            && exists|i: int| 0 <= i < es.len() && (#[trigger] es[i]).0@ == f && value_key_text(es[i].1) == k)),
    decreases es.len(),
{
    if es.len() > 0 {
        let init = es.drop_last();
        lemma_add_fields(v, uid, init, f, k, x);
        if x == uid && exists|i: int| 0 <= i < init.len() && (#[trigger] init[i]).0@ == f && value_key_text(init[i].1) == k {
            let i = choose|i: int| 0 <= i < init.len() && (#[trigger] init[i]).0@ == f && value_key_text(init[i].1) == k;
            assert(es[i] == init[i]);
        }
        if x == uid && exists|i: int| 0 <= i < es.len() && (#[trigger] es[i]).0@ == f && value_key_text(es[i].1) == k {
            let i = choose|i: int| 0 <= i < es.len() && (#[trigger] es[i]).0@ == f && value_key_text(es[i].1) == k;
            if i < es.len() - 1 {
                assert(init[i] == es[i]);
            }
        }
    }
}

/// A document's top-level object (if it is one) has distinct keys, as every
/// object built by this library does.
pub open spec fn doc_keys_distinct(doc: JsonValue) -> bool {
    match doc {
        JsonValue::Object(m) => keys_distinct(m.pairs()),
        _ => true,
    }
}

/// What an upsert leaves in the index: under field `f` and value key `k`,
/// the id that was indexed is there exactly when the document holds `f`
/// with a value of key `k`; every other id is there exactly when it was
/// before.
pub proof fn law_upsert_index(
    v: Map<Seq<char>, Map<Seq<char>, Set<u32>>>,
    id: VectorId,
    doc: JsonValue,
    f: Seq<char>,
    k: Seq<char>,
    x: u32,
)
    requires
        doc_keys_distinct(doc),
    ensures
        ids_at(index_doc(drop_id(v, uid_of(id)), uid_of(id), doc), f, k).contains(x) <==> if x == uid_of(id) {
            doc_has(doc, f, k)
        } else {
            ids_at(v, f, k).contains(x)
        },
{
    let uid = uid_of(id);
    let base = drop_id(v, uid);
    assert(ids_at(base, f, k).contains(x) <==> (x != uid && ids_at(v, f, k).contains(x)));
    match doc {
        JsonValue::Object(m) => {
            let es = m.pairs();
            lemma_add_fields(base, uid, es, f, k, x);
            if x == uid {
                crate::strmap::lemma_pairs_map_lookup(es, f);
                if doc_has(doc, f, k) {
                    let j = key_index(es, f);
                    assert(es[j].0@ == f && value_key_text(es[j].1) == k);
                }
                if exists|i: int| 0 <= i < es.len() && (#[trigger] es[i]).0@ == f && value_key_text(es[i].1) == k {
                    let i = choose|i: int| 0 <= i < es.len() && (#[trigger] es[i]).0@ == f && value_key_text(es[i].1) == k;
                    let j = key_index(es, f);
                    assert(i == j) by {
                        if i != j {
                            if i < j {
                                assert(es[i].0@ != es[j].0@);
                            } else {
                                assert(es[j].0@ != es[i].0@);
                            }
                        }
                    }
                }
            }
        },
        _ => {},
    }
}

/// What a remove leaves in the index: the removed id nowhere, every other
/// id where it was.
pub proof fn law_remove_index(
    v: Map<Seq<char>, Map<Seq<char>, Set<u32>>>,
    id: VectorId,
    f: Seq<char>,
    k: Seq<char>,
    x: u32,
)
    ensures
        ids_at(drop_id(v, uid_of(id)), f, k).contains(x) <==> (x != uid_of(id) && ids_at(v, f, k).contains(x)),
{
}

} // verus!
