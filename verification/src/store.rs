//! The metadata store: documents by external id, the two-way mapping
//! between external ids and internal vector ids, and the inverted index
//! that answers filters from the documents' fields.

use vstd::prelude::*;
use roaring::RoaringBitmap;
use crate::bitmap::{bitmap_difference, bitmap_ids, bitmap_insert, bitmap_intersect_with, bitmap_new, bitmap_union_with};
use crate::filter::{field_of, holds, law_and_holds, law_or_holds, Filter, FilterOp};
use crate::inverted::{
    doc_has, doc_keys_distinct, drop_id, ids_at, ids_of_values, index_doc, law_remove_index, law_upsert_index,
    uid_of, InvertedIndex,
};
use crate::json::{json_clone, json_eq, key_exact, lemma_key_matches_exact, value_canonical, value_key_text, EqMode, JsonValue};
use crate::strmap::{lemma_pairs_map_same_keys, reversed, StrMap};
use crate::text::{decimal, str_eq};
use crate::types::VectorId;

verus! {

/// How an internal id is written as a key: in decimal.
pub open spec fn id_text(id: VectorId) -> Seq<char> {
    decimal(id.0 as nat)
}

/// The id an external id pointed to before an upsert, when that was another id.
pub open spec fn stale_id(internals: Map<Seq<char>, VectorId>, ext: Seq<char>, id: VectorId) -> Option<
    VectorId,
> {
    if internals.contains_key(ext) && internals[ext] != id {
        Some(internals[ext])
    } else {
        None
    }
}

/// The reverse map after its stale entry (if any) is dropped.
pub open spec fn externals_unstaled(
    externals: Map<Seq<char>, Seq<char>>,
    internals: Map<Seq<char>, VectorId>,
    ext: Seq<char>,
    id: VectorId,
) -> Map<Seq<char>, Seq<char>> {
    match stale_id(internals, ext, id) {
        Some(o) => externals.remove(id_text(o)),
        None => externals,
    }
}

/// internal id → external id after `upsert(ext, id, _)`: the stale entry of
/// `ext` dropped, then `id` pointed at `ext`.
pub open spec fn upsert_externals(
    externals: Map<Seq<char>, Seq<char>>,
    internals: Map<Seq<char>, VectorId>,
    ext: Seq<char>,
    id: VectorId,
) -> Map<Seq<char>, Seq<char>> {
    externals_unstaled(externals, internals, ext, id).insert(id_text(id), ext)
}

/// external id → internal id after `upsert(ext, id, _)`: `ext` pointed at
/// `id`, and the other external id that `id` belonged to (if any) dropped.
pub open spec fn upsert_internals(
    externals: Map<Seq<char>, Seq<char>>,
    internals: Map<Seq<char>, VectorId>,
    ext: Seq<char>,
    id: VectorId,
) -> Map<Seq<char>, VectorId> {
    let e1 = externals_unstaled(externals, internals, ext, id);
    if e1.contains_key(id_text(id)) && e1[id_text(id)] != ext {
        internals.insert(ext, id).remove(e1[id_text(id)])
    } else {
        internals.insert(ext, id)
    }
}

/// The inverted index after `upsert(ext, id, doc)`: the stale id (if any)
/// taken out, then `doc` indexed for `id`.
pub open spec fn upsert_index(
    index: Map<Seq<char>, Map<Seq<char>, Set<u32>>>,
    internals: Map<Seq<char>, VectorId>,
    ext: Seq<char>,
    id: VectorId,
    doc: JsonValue,
) -> Map<Seq<char>, Map<Seq<char>, Set<u32>>> {
    let i1 = match stale_id(internals, ext, id) {
        Some(o) => drop_id(index, uid_of(o)),
        None => index,
    };
    index_doc(drop_id(i1, uid_of(id)), uid_of(id), doc)
}

/// A map of strings, by the texts of its values.
pub open spec fn strings_view(m: StrMap<String>) -> Map<Seq<char>, Seq<char>> {
    Map::new(|k: Seq<char>| m@.contains_key(k), |k: Seq<char>| m@[k]@)
}

/// The map of strings holds exactly the entries of `ps`, its pairs by text.
proof fn lemma_strings_view(m: StrMap<String>, ps: Seq<(Seq<char>, Seq<char>)>)
    requires
        crate::strmap::keys_distinct(m.pairs()),
        ps == m.pairs().map_values(|p: (String, String)| (p.0@, p.1@)),
    ensures
        forall|k: Seq<char>|
            strings_view(m).contains_key(k) <==> exists|i: int| 0 <= i < ps.len() && #[trigger] ps[i].0 == k,
        forall|i: int| 0 <= i < ps.len() ==> strings_view(m)[#[trigger] ps[i].0] == ps[i].1,
{
    let es = m.pairs();
    assert forall|k: Seq<char>|
        strings_view(m).contains_key(k) <==> exists|i: int| 0 <= i < ps.len() && #[trigger] ps[i].0 == k by {
        crate::strmap::lemma_pairs_map_lookup(es, k);
        if strings_view(m).contains_key(k) {
            let j = crate::strmap::key_index(es, k);
            assert(ps[j].0 == k);
        }
        if exists|i: int| 0 <= i < ps.len() && #[trigger] ps[i].0 == k {
            let i = choose|i: int| 0 <= i < ps.len() && #[trigger] ps[i].0 == k;
            assert(es[i].0@ == k);
        }
    }
    assert forall|i: int| 0 <= i < ps.len() implies strings_view(m)[#[trigger] ps[i].0] == ps[i].1 by {
        crate::strmap::lemma_pairs_map_lookup(es, ps[i].0);
        let j = crate::strmap::key_index(es, ps[i].0);
        assert(es[i].0@ == ps[i].0);
        assert(i == j) by {
            if i != j {
                if i < j {
                    assert(es[i].0@ != es[j].0@);
                } else {
                    assert(es[j].0@ != es[i].0@);
                }
            }
        }
    }
}

/// Metadata documents by external id, with the id mapping and the index.
#[derive(Debug)]
pub struct MetadataStore {
    /// external id → metadata document
    by_external: StrMap<JsonValue>,
    /// internal id (decimal) → external id
    id_map: StrMap<String>,
    /// external id → internal id
    ext_to_id: StrMap<VectorId>,
    /// payload inverted index
    inverted: InvertedIndex,
}

impl MetadataStore {
    /// external id → document.
    pub closed spec fn docs(&self) -> Map<Seq<char>, JsonValue> {
        self.by_external@
    }

    /// internal id (decimal) → external id.
    pub closed spec fn externals(&self) -> Map<Seq<char>, Seq<char>> {
        strings_view(self.id_map)
    }

    /// external id → internal id.
    pub closed spec fn internals(&self) -> Map<Seq<char>, VectorId> {
        self.ext_to_id@
    }

    /// field → value key → ids.
    pub closed spec fn index(&self) -> Map<Seq<char>, Map<Seq<char>, Set<u32>>> {
        self.inverted@
    }

    /// The two id maps are inverse to each other.
    pub open spec fn consistent(&self) -> bool {
        ids_consistent(self.externals(), self.internals())
    }

    /// The index is the index of the stored documents (see `store_agrees`).
    pub open spec fn index_current(&self) -> bool {
        store_agrees(self.index(), self.internals(), self.docs())
    }

    pub fn new() -> (r: Self)
        ensures
            r.consistent(),
            r.docs() == Map::<Seq<char>, JsonValue>::empty(),
            r.externals() == Map::<Seq<char>, Seq<char>>::empty(),
            r.internals() == Map::<Seq<char>, VectorId>::empty(),
            r.index() == Map::<Seq<char>, Map<Seq<char>, Set<u32>>>::empty(),
            r.index_current(),
    {
        let r = MetadataStore {
            by_external: StrMap::new(),
            id_map: StrMap::new(),
            ext_to_id: StrMap::new(),
            inverted: InvertedIndex::new(),
        };
        assert(r.externals() =~= Map::<Seq<char>, Seq<char>>::empty());
        r
    }

    /// The document stored under an external id.
    pub fn get(&self, external_id: &str) -> (r: Option<&JsonValue>)
        ensures
            match r {
                Some(v) => self.docs().contains_key(external_id@) && *v == self.docs()[external_id@],
                None => !self.docs().contains_key(external_id@),
            },
    {
        self.by_external.get(external_id)
    }

    /// The external id an internal id belongs to.
    pub fn external_id_for(&self, internal_id: VectorId) -> (r: Option<&str>)
        ensures
            match r {
                Some(s) => self.externals().contains_key(id_text(internal_id)) && s@ == self.externals()[id_text(internal_id)],
                None => !self.externals().contains_key(id_text(internal_id)),
            },
    {
        let key = internal_id.to_string();
        match self.id_map.get(key.as_str()) {
            Some(s) => Some(s.as_str()),
            None => None,
        }
    }

    /// The internal id of an external id, in decimal, as the reverse map
    /// holds it.
    pub fn external_id_for_reverse(&self, external_id: &str) -> (r: Option<&str>)
        ensures
            match r {
                Some(s) => self.internals().contains_key(external_id@) && s@ == id_text(
                    self.internals()[external_id@],
                ) && self.externals().contains_key(s@),
                None => !(self.internals().contains_key(external_id@) && self.externals().contains_key(
                    id_text(self.internals()[external_id@]),
                )),
            },
    {
        let id = match self.ext_to_id.get(external_id) {
            Some(id) => *id,
            None => {
                return None;
            },
        };
        let key = id.to_string();
        match self.id_map.get_key_value(key.as_str()) {
            Some((k, _)) => Some(k.as_str()),
            None => None,
        }
    }

    /// The internal id of an external id.
    pub fn internal_id_for(&self, external_id: &str) -> (r: Option<VectorId>)
        ensures
            match r {
                Some(id) => self.internals().contains_key(external_id@) && id == self.internals()[external_id@],
                None => !self.internals().contains_key(external_id@),
            },
    {
        match self.ext_to_id.get(external_id) {
            Some(id) => Some(*id),
            None => None,
        }
    }

    /// The number of documents.
    pub fn len(&self) -> (r: usize)
        ensures
            r == self.docs().dom().len(),
            self.docs().dom().finite(),
    {
        self.by_external.key_count()
    }

    pub fn is_empty(&self) -> (r: bool)
        ensures
            r == (self.docs().dom().len() == 0),
    {
        self.by_external.key_count() == 0
    }

    /// The payload inverted index.
    pub fn inverted(&self) -> (r: &InvertedIndex)
        ensures
            r@ == self.index(),
    {
        &self.inverted
    }
}

impl MetadataStore {
    /// Stores `metadata` under `external_id` for vector `internal_id`,
    /// keeping the two id maps inverse to each other: a stale id of
    /// `external_id` loses its reverse entry and its index entries, and an
    /// external id that `internal_id` belonged to loses its forward entry.
    pub fn upsert(&mut self, external_id: &str, internal_id: VectorId, metadata: JsonValue)
        ensures
            old(self).consistent() ==> final(self).consistent(),
            final(self).docs() == old(self).docs().insert(external_id@, metadata),
            final(self).externals() == upsert_externals(
                old(self).externals(),
                old(self).internals(),
                external_id@,
                internal_id,
            ),
            final(self).internals() == upsert_internals(
                old(self).externals(),
                old(self).internals(),
                external_id@,
                internal_id,
            ),
            final(self).index() == upsert_index(
                old(self).index(),
                old(self).internals(),
                external_id@,
                internal_id,
                metadata,
            ),
            old(self).consistent() && old(self).index_current() && internal_id.0 < 0x1_0000_0000
                ==> final(self).index_current(),
            ids_paired(old(self).externals(), old(self).internals()) ==> ids_paired(
                final(self).externals(),
                final(self).internals(),
            ),
    {
        let ghost ext = external_id@;
        let prev = self.ext_to_id.insert(external_id.to_owned(), internal_id);
        match prev {
            Some(old_id) => {
                if old_id != internal_id {
                    let k = old_id.to_string();
                    self.id_map.remove(k.as_str());
                    self.inverted.remove(old_id);
                }
            },
            None => {},
        }
        let ghost e1 = Map::new(|k: Seq<char>| self.id_map@.contains_key(k), |k: Seq<char>| self.id_map@[k]@);
        assert(e1 =~= externals_unstaled(old(self).externals(), old(self).internals(), ext, internal_id));
        let prev_ext = self.id_map.insert(internal_id.to_string(), external_id.to_owned());
        match prev_ext {
            Some(old_ext) => {
                if !str_eq(old_ext.as_str(), external_id) {
                    self.ext_to_id.remove(old_ext.as_str());
                }
            },
            None => {},
        }
        self.inverted.upsert(internal_id, &metadata);
        self.by_external.insert(external_id.to_owned(), metadata);
        assert(self.externals() =~= upsert_externals(
            old(self).externals(),
            old(self).internals(),
            ext,
            internal_id,
        ));
        proof {
            if ids_paired(old(self).externals(), old(self).internals()) {
                law_upsert_keeps_ids_paired(old(self).externals(), old(self).internals(), ext, internal_id);
            }
            if old(self).consistent() {
                law_upsert_keeps_ids_consistent(
                    old(self).externals(),
                    old(self).internals(),
                    ext,
                    internal_id,
                );
                if old(self).index_current() && internal_id.0 < 0x1_0000_0000 {
                    lemma_upsert_keeps_agreement(
                        old(self).index(),
                        old(self).externals(),
                        old(self).internals(),
                        old(self).docs(),
                        ext,
                        internal_id,
                        metadata,
                    );
                }
            }
        }
    }

    /// Drops the document of an external id, its id mapping in both
    /// directions, and its id from the index.
    pub fn remove(&mut self, external_id: &str)
        ensures
            old(self).consistent() ==> final(self).consistent(),
            final(self).docs() == old(self).docs().remove(external_id@),
            old(self).internals().contains_key(external_id@) ==> {
                let id = old(self).internals()[external_id@];
                &&& final(self).internals() == old(self).internals().remove(external_id@)
                &&& final(self).externals() == old(self).externals().remove(id_text(id))
                &&& final(self).index() == drop_id(old(self).index(), uid_of(id))
            },
            !old(self).internals().contains_key(external_id@) ==> {
                &&& final(self).internals() == old(self).internals()
                &&& final(self).externals() == old(self).externals()
                &&& final(self).index() == old(self).index()
            },
            old(self).consistent() && old(self).index_current() ==> final(self).index_current(),
            ids_paired(old(self).externals(), old(self).internals()) ==> ids_paired(
                final(self).externals(),
                final(self).internals(),
            ),
    {
        self.by_external.remove(external_id);
        match self.ext_to_id.remove(external_id) {
            Some(id) => {
                let k = id.to_string();
                self.id_map.remove(k.as_str());
                self.inverted.remove(id);
                assert(self.externals() =~= old(self).externals().remove(id_text(id)));
                proof {
                    if ids_paired(old(self).externals(), old(self).internals()) {
                        law_remove_keeps_ids_paired(old(self).externals(), old(self).internals(), external_id@);
                    }
                    if old(self).consistent() {
                        law_remove_keeps_ids_consistent(
                            old(self).externals(),
                            old(self).internals(),
                            external_id@,
                        );
                        if old(self).index_current() {
                            lemma_remove_keeps_agreement(
                                old(self).index(),
                                old(self).externals(),
                                old(self).internals(),
                                old(self).docs(),
                                external_id@,
                            );
                        }
                    }
                }
            },
            None => {
                assert(self.externals() =~= old(self).externals());
                proof {
                    if old(self).index_current() {
                        let i = self.internals();
                        let d = self.docs();
                        assert forall|e: Seq<char>, f: Seq<char>, k: Seq<char>| i.contains_key(e) implies (ids_at(
                            self.index(),
                            f,
                            k,
                        ).contains(uid_of(i[e])) <==> doc_has(doc_of(d, e), f, k)) by {
                            assert(doc_of(d, e) == doc_of(old(self).docs(), e));
                        }
                    }
                }
            },
        }
    }
}

/// The ids the index holds under `field` and the key of `value`, when it has both.
pub open spec fn ids_under(
    index: Map<Seq<char>, Map<Seq<char>, Set<u32>>>,
    field: Seq<char>,
    value: JsonValue,
) -> Option<Set<u32>> {
    if index.contains_key(field) && index[field].contains_key(value_key_text(value)) {
        Some(index[field][value_key_text(value)])
    } else {
        None
    }
}

/// The ids an equality admits: those under the value's key, none when the
/// field is indexed but the value is not; undecided when the field is not
/// indexed.
pub open spec fn eq_eligible(
    index: Map<Seq<char>, Map<Seq<char>, Set<u32>>>,
    field: Seq<char>,
    value: JsonValue,
) -> Option<Set<u32>> {
    if index.contains_key(field) {
        match ids_under(index, field, value) {
            Some(s) => Some(s),
            None => Some(Set::empty()),
        }
    } else {
        None
    }
}

/// The ids a filter admits by the index and the set `all` of stored ids,
/// or `None` where the index cannot decide it: range operators, `$in`
/// against a non-array, an equality or `$in` on a field the index lacks,
/// and any combination holding one of these (an empty `$and` too). An
/// equality on an indexed field whose value the index does not hold admits
/// no id; `$ne` admits every stored id but those the equality admits, on
/// a field that no document holds too (there every stored id, since a
/// document without the field satisfies `$ne`).
pub open spec fn eligible(index: Map<Seq<char>, Map<Seq<char>, Set<u32>>>, all: Set<u32>, f: Filter) -> Option<
    Set<u32>,
>
    decreases f,
{
    match f {
        Filter::Eq { field, value } => eq_eligible(index, field@, value),
        Filter::Cmp { field, op, value } => match op {
            FilterOp::Eq => eq_eligible(index, field@, value),
            FilterOp::In => match value {
                JsonValue::Array(arr) => if index.contains_key(field@) {
                    Some(ids_of_values(index[field@], arr@))
                } else {
                    None
                },
                _ => None,
            },
            FilterOp::Ne => {
                let eq = match ids_under(index, field@, value) {
                    Some(s) => s,
                    None => Set::empty(),
                };
                Some(all.difference(eq))
            },
            _ => None,
        },
        Filter::And(fs) => and_eligible(index, all, fs@, fs@.len() as int),
        Filter::Or(fs) => or_eligible(index, all, fs@, fs@.len() as int),
    }
}

/// The intersection of what the first `n` filters admit; `None` if any of
/// them is undecided, or if `n` is 0.
pub open spec fn and_eligible(
    index: Map<Seq<char>, Map<Seq<char>, Set<u32>>>,
    all: Set<u32>,
    fs: Seq<Filter>,
    n: int,
) -> Option<Set<u32>>
    decreases fs, n,
{
    if n <= 0 || n > fs.len() {
        None
    } else if n == 1 {
        eligible(index, all, fs[0])
    } else {
        match and_eligible(index, all, fs, n - 1) {
            Some(a) => match eligible(index, all, fs[n - 1]) {
                Some(b) => Some(a.intersect(b)),
                None => None,
            },
            None => None,
        }
    }
}

/// The union of what the first `n` filters admit; `None` if any of them is
/// undecided.
pub open spec fn or_eligible(
    index: Map<Seq<char>, Map<Seq<char>, Set<u32>>>,
    all: Set<u32>,
    fs: Seq<Filter>,
    n: int,
) -> Option<Set<u32>>
    decreases fs, n,
{
    if n <= 0 || n > fs.len() {
        Some(Set::empty())
    } else {
        match or_eligible(index, all, fs, n - 1) {
            Some(a) => match eligible(index, all, fs[n - 1]) {
                Some(b) => Some(a.union(b)),
                None => None,
            },
            None => None,
        }
    }
}

proof fn lemma_and_none_stays(
    index: Map<Seq<char>, Map<Seq<char>, Set<u32>>>,
    all: Set<u32>,
    fs: Seq<Filter>,
    i: int,
    m: int,
)
    requires
        1 <= i <= m <= fs.len(),
        and_eligible(index, all, fs, i) is None,
    ensures
        and_eligible(index, all, fs, m) is None,
    decreases m - i,
{
    if m > i {
        lemma_and_none_stays(index, all, fs, i, m - 1);
    }
}

proof fn lemma_or_none_stays(
    index: Map<Seq<char>, Map<Seq<char>, Set<u32>>>,
    all: Set<u32>,
    fs: Seq<Filter>,
    i: int,
    m: int,
)
    requires
        0 <= i <= m <= fs.len(),
        or_eligible(index, all, fs, i) is None,
    ensures
        or_eligible(index, all, fs, m) is None,
    decreases m - i,
{
    if m > i {
        lemma_or_none_stays(index, all, fs, i, m - 1);
    }
}

/// Every value a document holds under a field is in canonical form: each
/// number in it, at any depth, is, and each object in it holds its members
/// in increasing key order, as an ordered map does (its values may
/// otherwise be anything: floats, arrays, objects included).
pub open spec fn doc_canonical(d: JsonValue) -> bool {
    forall|f: Seq<char>| (#[trigger] field_of(d, f)) is Some ==> value_canonical(field_of(d, f)->0)
}

/// Every value a filter compares by equality (`Eq`, `$eq`, `$ne`, the items
/// of `$in`) has an exact index key: it is null, a boolean, a string, an
/// integer, or an array or an object (members in increasing key order) of
/// such values at any depth.
pub open spec fn filter_key_exact(f: Filter) -> bool
    decreases f,
{
    match f {
        Filter::Eq { field, value } => key_exact(value),
        Filter::Cmp { field, op, value } => match op {
            FilterOp::In => match value {
                JsonValue::Array(arr) => forall|i: int| 0 <= i < arr@.len() ==> key_exact(#[trigger] arr@[i]),
                _ => true,
            },
            FilterOp::Eq => key_exact(value),
            FilterOp::Ne => key_exact(value),
            _ => true,
        },
        Filter::And(fs) => forall|i: int| 0 <= i < fs@.len() ==> filter_key_exact(#[trigger] fs@[i]),
        Filter::Or(fs) => forall|i: int| 0 <= i < fs@.len() ==> filter_key_exact(#[trigger] fs@[i]),
    }
}

/// The index agrees with the documents of the ids in `all`: every such id
/// has a document; an id under field `f` and key `k` has a document holding
/// `f` with a value of key `k`; and a document holding `f` has its id under
/// `f` and the key of its value.
pub open spec fn index_agrees(
    index: Map<Seq<char>, Map<Seq<char>, Set<u32>>>,
    all: Set<u32>,
    docs: Map<u32, JsonValue>,
) -> bool {
    &&& forall|u: u32| #[trigger] all.contains(u) ==> docs.contains_key(u)
    &&& forall|f: Seq<char>, k: Seq<char>, u: u32|
        all.contains(u) && index.contains_key(f) && index[f].contains_key(k) && #[trigger] index[f][k].contains(u)
            ==> (field_of(docs[u], f) is Some && value_key_text(field_of(docs[u], f)->0) == k)
    &&& forall|f: Seq<char>, u: u32|
        all.contains(u) && (#[trigger] field_of(docs[u], f)) is Some ==> {
            let k = value_key_text(field_of(docs[u], f)->0);
            &&& index.contains_key(f)
            &&& index[f].contains_key(k)
            &&& index[f][k].contains(u)
        }
}

/// The answer of `eligible` for `f`, when it gives one, is exactly the ids
/// in `all` whose documents `f` holds of.
pub open spec fn eligible_exact(
    index: Map<Seq<char>, Map<Seq<char>, Set<u32>>>,
    all: Set<u32>,
    docs: Map<u32, JsonValue>,
    f: Filter,
) -> bool {
    match eligible(index, all, f) {
        Some(s) => forall|u: u32| #[trigger] all.contains(u) ==> (s.contains(u) <==> holds(f, docs[u])),
        None => true,
    }
}

/// The ids the index holds for an equality, none when it holds no such key.
pub open spec fn eq_ids_or_empty(
    index: Map<Seq<char>, Map<Seq<char>, Set<u32>>>,
    field: Seq<char>,
    value: JsonValue,
) -> Set<u32> {
    match ids_under(index, field, value) {
        Some(s) => s,
        None => Set::empty(),
    }
}

proof fn lemma_eq_ids_exact(
    index: Map<Seq<char>, Map<Seq<char>, Set<u32>>>,
    all: Set<u32>,
    docs: Map<u32, JsonValue>,
    field: Seq<char>,
    value: JsonValue,
)
    requires
        index_agrees(index, all, docs),
        forall|u: u32| all.contains(u) ==> doc_canonical(#[trigger] docs[u]),
        key_exact(value),
    ensures
        forall|u: u32|
            #[trigger] all.contains(u) ==> (eq_ids_or_empty(index, field, value).contains(u) <==> (field_of(
                docs[u],
                field,
            ) is Some && json_eq(field_of(docs[u], field)->0, value, EqMode::Value))),
{
    assert forall|u: u32| #[trigger] all.contains(u) implies (eq_ids_or_empty(index, field, value).contains(u) <==> (
    field_of(docs[u], field) is Some && json_eq(field_of(docs[u], field)->0, value, EqMode::Value))) by {
        let d = docs[u];
        let kv = value_key_text(value);
        match field_of(d, field) {
            Some(v) => {
                assert(doc_canonical(d));
                assert(value_canonical(v));
                lemma_key_matches_exact(v, value);
                let kd = value_key_text(v);
                assert(index.contains_key(field) && index[field].contains_key(kd) && index[field][kd].contains(u));
                if index.contains_key(field) && index[field].contains_key(kv) && index[field][kv].contains(u) {
                    assert(value_key_text(field_of(d, field)->0) == kv);
                }
            },
            None => {
                if index.contains_key(field) && index[field].contains_key(kv) && index[field][kv].contains(u) {
                    assert(field_of(docs[u], field) is Some);
                }
            },
        }
    }
}

proof fn lemma_and_exact(
    index: Map<Seq<char>, Map<Seq<char>, Set<u32>>>,
    all: Set<u32>,
    docs: Map<u32, JsonValue>,
    fs: Seq<Filter>,
    n: int,
)
    requires
        1 <= n <= fs.len(),
        forall|i: int| 0 <= i < fs.len() ==> eligible_exact(index, all, docs, #[trigger] fs[i]),
    ensures
        and_eligible(index, all, fs, n) matches Some(s) ==> forall|u: u32| #[trigger] all.contains(u) ==> (
        s.contains(u) <==> forall|i: int| 0 <= i < n ==> holds(#[trigger] fs[i], docs[u])),
    decreases n,
{
    if n > 1 {
        lemma_and_exact(index, all, docs, fs, n - 1);
    }
    if let Some(s) = and_eligible(index, all, fs, n) {
        assert(eligible_exact(index, all, docs, fs[n - 1]));
        assert(eligible_exact(index, all, docs, fs[0]));
        assert forall|u: u32| #[trigger] all.contains(u) implies (s.contains(u) <==> forall|i: int|
            0 <= i < n ==> holds(#[trigger] fs[i], docs[u])) by {
            if forall|i: int| 0 <= i < n ==> holds(#[trigger] fs[i], docs[u]) {
                assert(holds(fs[n - 1], docs[u]));
                assert(holds(fs[0], docs[u]));
            }
            if n > 1 && !(forall|i: int| 0 <= i < n ==> holds(#[trigger] fs[i], docs[u])) {
                let j = choose|j: int| 0 <= j < n && !holds(#[trigger] fs[j], docs[u]);
                if j < n - 1 {
                    assert(!(forall|i: int| 0 <= i < n - 1 ==> holds(#[trigger] fs[i], docs[u])));
                }
            }
        }
    }
}

proof fn lemma_or_exact(
    index: Map<Seq<char>, Map<Seq<char>, Set<u32>>>,
    all: Set<u32>,
    docs: Map<u32, JsonValue>,
    fs: Seq<Filter>,
    n: int,
)
    requires
        0 <= n <= fs.len(),
        forall|i: int| 0 <= i < fs.len() ==> eligible_exact(index, all, docs, #[trigger] fs[i]),
    ensures
        or_eligible(index, all, fs, n) matches Some(s) ==> forall|u: u32| #[trigger] all.contains(u) ==> (
        s.contains(u) <==> exists|i: int| 0 <= i < n && holds(#[trigger] fs[i], docs[u])),
    decreases n,
{
    if n > 0 {
        lemma_or_exact(index, all, docs, fs, n - 1);
    }
    if let Some(s) = or_eligible(index, all, fs, n) {
        if n > 0 {
            assert(eligible_exact(index, all, docs, fs[n - 1]));
        }
        assert forall|u: u32| #[trigger] all.contains(u) implies (s.contains(u) <==> exists|i: int|
            0 <= i < n && holds(#[trigger] fs[i], docs[u])) by {
            if exists|i: int| 0 <= i < n && holds(#[trigger] fs[i], docs[u]) {
                let j = choose|j: int| 0 <= j < n && holds(#[trigger] fs[j], docs[u]);
                if j < n - 1 {
                    assert(exists|i: int| 0 <= i < n - 1 && holds(#[trigger] fs[i], docs[u]));
                }
            }
            if n > 0 && s.contains(u) {
                if holds(fs[n - 1], docs[u]) {
                } else {
                    let a = or_eligible(index, all, fs, n - 1)->0;
                    assert(a.contains(u));
                    let j = choose|j: int| 0 <= j < n - 1 && holds(#[trigger] fs[j], docs[u]);
                    assert(holds(fs[j], docs[u]));
                }
            }
        }
    }
}

/// Where the index agrees with the stored documents, whose values are in
/// canonical form, and the values the filter compares have exact keys, an
/// answer of `eligible` is exactly the stored ids whose documents the filter
/// holds of; `None` leaves the filter to be checked document by document.
pub proof fn law_eligible_is_matching(
    index: Map<Seq<char>, Map<Seq<char>, Set<u32>>>,
    all: Set<u32>,
    docs: Map<u32, JsonValue>,
    f: Filter,
)
    requires
        index_agrees(index, all, docs),
        forall|u: u32| all.contains(u) ==> doc_canonical(#[trigger] docs[u]),
        filter_key_exact(f),
    ensures
        eligible_exact(index, all, docs, f),
    decreases f,
{
    match f {
        Filter::Eq { field, value } => {
            lemma_eq_ids_exact(index, all, docs, field@, value);
        },
        Filter::Cmp { field, op, value } => {
            match op {
                FilterOp::Eq => {
                    lemma_eq_ids_exact(index, all, docs, field@, value);
                },
                FilterOp::Ne => {
                    lemma_eq_ids_exact(index, all, docs, field@, value);
                },
                FilterOp::In => {
                    match value {
                        JsonValue::Array(arr) => {
                            if index.contains_key(field@) {
                                let m = index[field@];
                                let s = ids_of_values(m, arr@);
                                assert forall|u: u32| #[trigger] all.contains(u) implies (s.contains(u) <==> holds(f, docs[u])) by {
                                    let d = docs[u];
                                    if s.contains(u) {
                                        let i = choose|i: int|
                                            0 <= i < arr@.len() && m.contains_key(#[trigger] value_key_text(arr@[i]))
                                                && m[value_key_text(arr@[i])].contains(u);
                                        assert(field_of(d, field@) is Some);
                                        let v = field_of(d, field@)->0;
                                        assert(doc_canonical(d));
                                        assert(value_canonical(v));
                                        assert(key_exact(arr@[i]));
                                        lemma_key_matches_exact(v, arr@[i]);
                                        assert(json_eq(arr@[i], v, EqMode::Value));
                                    }
                                    if holds(f, d) {
                                        let v = field_of(d, field@)->0;
                                        let i = choose|i: int| 0 <= i < arr@.len() && json_eq(#[trigger] arr@[i], v, EqMode::Value);
                                        assert(doc_canonical(d));
                                        assert(value_canonical(v));
                                        assert(key_exact(arr@[i]));
                                        lemma_key_matches_exact(v, arr@[i]);
                                        assert(m.contains_key(value_key_text(arr@[i])));
                                        assert(s.contains(u));
                                    }
                                }
                            }
                        },
                        _ => {},
                    }
                },
                _ => {},
            }
        },
        Filter::And(fs) => {
            assert forall|i: int| 0 <= i < fs@.len() implies eligible_exact(index, all, docs, #[trigger] fs@[i]) by {
                assert(decreases_to!(f => fs));
                assert(decreases_to!(fs => fs@[i]));
                assert(filter_key_exact(fs@[i]));
                law_eligible_is_matching(index, all, docs, fs@[i]);
            }
            if fs@.len() > 0 {
                lemma_and_exact(index, all, docs, fs@, fs@.len() as int);
                assert forall|u: u32| #[trigger] all.contains(u) implies (holds(f, docs[u]) <==> forall|i: int|
                    0 <= i < fs@.len() ==> holds(#[trigger] fs@[i], docs[u])) by {
                    law_and_holds(fs, docs[u]);
                }
            }
        },
        Filter::Or(fs) => {
            assert forall|i: int| 0 <= i < fs@.len() implies eligible_exact(index, all, docs, #[trigger] fs@[i]) by {
                assert(decreases_to!(f => fs));
                assert(decreases_to!(fs => fs@[i]));
                assert(filter_key_exact(fs@[i]));
                law_eligible_is_matching(index, all, docs, fs@[i]);
            }
            lemma_or_exact(index, all, docs, fs@, fs@.len() as int);
            assert forall|u: u32| #[trigger] all.contains(u) implies (holds(f, docs[u]) <==> exists|i: int|
                0 <= i < fs@.len() && holds(#[trigger] fs@[i], docs[u])) by {
                law_or_holds(fs, docs[u]);
            }
        },
    }
}

/// The document of an external id; one without a document holds no field.
pub open spec fn doc_of(docs: Map<Seq<char>, JsonValue>, e: Seq<char>) -> JsonValue {
    if docs.contains_key(e) {
        docs[e]
    } else {
        JsonValue::Null
    }
}

/// The index is the index of the stored documents: every stored id is
/// below 2^32 (so the index keeps it as itself), and for every stored
/// external id, its id is under field `f` and key `k` exactly when its
/// document holds `f` with a value of key `k`.
pub open spec fn store_agrees(
    index: Map<Seq<char>, Map<Seq<char>, Set<u32>>>,
    internals: Map<Seq<char>, VectorId>,
    docs: Map<Seq<char>, JsonValue>,
) -> bool {
    &&& forall|e: Seq<char>| #[trigger] internals.contains_key(e) ==> internals[e].0 < 0x1_0000_0000
    &&& forall|e: Seq<char>, f: Seq<char>, k: Seq<char>|
        #![trigger ids_at(index, f, k).contains(uid_of(internals[e]))]
        #![trigger doc_has(doc_of(docs, e), f, k), internals.contains_key(e)]
        internals.contains_key(e) ==> (ids_at(index, f, k).contains(uid_of(internals[e])) <==> doc_has(
            doc_of(docs, e),
            f,
            k,
        ))
}

proof fn lemma_uid_below(a: VectorId, b: VectorId)
    requires
        a.0 < 0x1_0000_0000,
        b.0 < 0x1_0000_0000,
        uid_of(a) == uid_of(b),
    ensures
        a == b,
{
    let x = a.0;
    let y = b.0;
    assert(x < 0x1_0000_0000 && y < 0x1_0000_0000 && (x as u32) == (y as u32) ==> x == y) by (bit_vector);
}

/// With consistent id maps, distinct external ids have distinct ids.
proof fn lemma_internals_injective(
    externals: Map<Seq<char>, Seq<char>>,
    internals: Map<Seq<char>, VectorId>,
    e1: Seq<char>,
    e2: Seq<char>,
)
    requires
        ids_consistent(externals, internals),
        internals.contains_key(e1),
        internals.contains_key(e2),
        internals[e1] == internals[e2],
    ensures
        e1 == e2,
{
}

/// An upsert keeps the index the index of the stored documents, for an id
/// below 2^32.
proof fn lemma_upsert_keeps_agreement(
    index: Map<Seq<char>, Map<Seq<char>, Set<u32>>>,
    externals: Map<Seq<char>, Seq<char>>,
    internals: Map<Seq<char>, VectorId>,
    docs: Map<Seq<char>, JsonValue>,
    ext: Seq<char>,
    id: VectorId,
    doc: JsonValue,
)
    requires
        ids_consistent(externals, internals),
        store_agrees(index, internals, docs),
        id.0 < 0x1_0000_0000,
        doc_keys_distinct(doc),
    ensures
        store_agrees(
            upsert_index(index, internals, ext, id, doc),
            upsert_internals(externals, internals, ext, id),
            docs.insert(ext, doc),
        ),
{
    let i2 = upsert_internals(externals, internals, ext, id);
    let x2 = upsert_index(index, internals, ext, id, doc);
    let d2 = docs.insert(ext, doc);
    let i1 = match stale_id(internals, ext, id) {
        Some(o) => drop_id(index, uid_of(o)),
        None => index,
    };
    let e1 = externals_unstaled(externals, internals, ext, id);
    assert forall|e: Seq<char>| #[trigger] i2.contains_key(e) implies i2[e].0 < 0x1_0000_0000 by {
        if e != ext {
            assert(internals.contains_key(e) && i2[e] == internals[e]);
        }
    }
    assert forall|e: Seq<char>, f: Seq<char>, k: Seq<char>| i2.contains_key(e) implies (ids_at(x2, f, k).contains(
        uid_of(i2[e]),
    ) <==> doc_has(doc_of(d2, e), f, k)) by {
        if e == ext {
            law_upsert_index(i1, id, doc, f, k, uid_of(id));
        } else {
            assert(internals.contains_key(e) && i2[e] == internals[e]);
            let ie = internals[e];
            assert(ie != id) by {
                if ie == id {
                    assert(externals.contains_key(id_text(id)) && externals[id_text(id)] == e);
                    match stale_id(internals, ext, id) {
                        Some(o) => {
                            assert(o == internals[ext]);
                            assert(o != id);
                            lemma_id_text_injective(o, id);
                            assert(e1 == externals.remove(id_text(o)));
                        },
                        None => {},
                    }
                    assert(e1.contains_key(id_text(id)) && e1[id_text(id)] == e);
                }
            }
            if uid_of(ie) == uid_of(id) {
                lemma_uid_below(ie, id);
            }
            law_upsert_index(i1, id, doc, f, k, uid_of(ie));
            match stale_id(internals, ext, id) {
                Some(o) => {
                    assert(o == internals[ext]);
                    if uid_of(ie) == uid_of(o) {
                        lemma_uid_below(ie, o);
                        lemma_internals_injective(externals, internals, e, ext);
                    }
                    law_remove_index(index, o, f, k, uid_of(ie));
                },
                None => {},
            }
            assert(doc_of(d2, e) == doc_of(docs, e));
        }
    }
}

/// A remove keeps the index the index of the stored documents.
proof fn lemma_remove_keeps_agreement(
    index: Map<Seq<char>, Map<Seq<char>, Set<u32>>>,
    externals: Map<Seq<char>, Seq<char>>,
    internals: Map<Seq<char>, VectorId>,
    docs: Map<Seq<char>, JsonValue>,
    ext: Seq<char>,
)
    requires
        ids_consistent(externals, internals),
        store_agrees(index, internals, docs),
        internals.contains_key(ext),
    ensures
        store_agrees(drop_id(index, uid_of(internals[ext])), internals.remove(ext), docs.remove(ext)),
{
    let i2 = internals.remove(ext);
    let x2 = drop_id(index, uid_of(internals[ext]));
    let d2 = docs.remove(ext);
    assert forall|e: Seq<char>, f: Seq<char>, k: Seq<char>| i2.contains_key(e) implies (ids_at(x2, f, k).contains(
        uid_of(i2[e]),
    ) <==> doc_has(doc_of(d2, e), f, k)) by {
        let ie = internals[e];
        if uid_of(ie) == uid_of(internals[ext]) {
            lemma_uid_below(ie, internals[ext]);
            lemma_internals_injective(externals, internals, e, ext);
        }
        law_remove_index(index, internals[ext], f, k, uid_of(ie));
        assert(doc_of(d2, e) == doc_of(docs, e));
    }
}

/// Where the index is the index of the stored documents (`store_agrees`,
/// with consistent id maps) and their values are in canonical form, and
/// the values the filter compares have exact keys (scalars other than
/// floats, and arrays and key-ordered objects of them), an answer of
/// `eligible`
/// holds the id of a stored external id exactly when the filter holds of
/// its document.
pub proof fn law_store_eligible_is_matching(
    index: Map<Seq<char>, Map<Seq<char>, Set<u32>>>,
    externals: Map<Seq<char>, Seq<char>>,
    internals: Map<Seq<char>, VectorId>,
    docs: Map<Seq<char>, JsonValue>,
    f: Filter,
)
    requires
        ids_consistent(externals, internals),
        store_agrees(index, internals, docs),
        forall|e: Seq<char>| internals.contains_key(e) ==> doc_canonical(#[trigger] doc_of(docs, e)),
        filter_key_exact(f),
    ensures
        eligible(index, stored_uids(internals), f) matches Some(s) ==> forall|e: Seq<char>|
            #[trigger] internals.contains_key(e) ==> (s.contains(uid_of(internals[e])) <==> holds(f, doc_of(docs, e))),
{
    let all = stored_uids(internals);
    let owner = |u: u32| choose|e: Seq<char>| internals.contains_key(e) && #[trigger] uid_of(internals[e]) == u;
    let udocs = Map::new(|u: u32| all.contains(u), |u: u32| doc_of(docs, owner(u)));
    assert forall|e: Seq<char>| #[trigger] internals.contains_key(e) implies owner(uid_of(internals[e])) == e by {
        let u = uid_of(internals[e]);
        assert(all.contains(u));
        let o = owner(u);
        assert(internals.contains_key(o) && uid_of(internals[o]) == u);
        lemma_uid_below(internals[o], internals[e]);
        lemma_internals_injective(externals, internals, o, e);
    }
    assert forall|u: u32| #[trigger] all.contains(u) implies owner(u) == owner(u) && internals.contains_key(owner(u))
        && uid_of(internals[owner(u)]) == u by {}
    assert(index_agrees(index, all, udocs)) by {
        assert forall|fl: Seq<char>, k: Seq<char>, u: u32|
            all.contains(u) && index.contains_key(fl) && index[fl].contains_key(k) && #[trigger] index[fl][k].contains(u)
            implies (field_of(udocs[u], fl) is Some && value_key_text(field_of(udocs[u], fl)->0) == k) by {
            let o = owner(u);
            assert(ids_at(index, fl, k).contains(uid_of(internals[o])));
            assert(doc_has(doc_of(docs, o), fl, k));
        }
        assert forall|fl: Seq<char>, u: u32| all.contains(u) && (#[trigger] field_of(udocs[u], fl)) is Some implies {
            let k = value_key_text(field_of(udocs[u], fl)->0);
            &&& index.contains_key(fl)
            &&& index[fl].contains_key(k)
            &&& index[fl][k].contains(u)
        } by {
            let o = owner(u);
            let k = value_key_text(field_of(udocs[u], fl)->0);
            assert(doc_has(doc_of(docs, o), fl, k));
            assert(ids_at(index, fl, k).contains(uid_of(internals[o])));
        }
    }
    assert forall|u: u32| all.contains(u) implies doc_canonical(#[trigger] udocs[u]) by {
        assert(doc_canonical(doc_of(docs, owner(u))));
    }
    law_eligible_is_matching(index, all, udocs, f);
    if let Some(s) = eligible(index, all, f) {
        assert forall|e: Seq<char>| #[trigger] internals.contains_key(e) implies (s.contains(uid_of(internals[e]))
            <==> holds(f, doc_of(docs, e))) by {
            let u = uid_of(internals[e]);
            assert(all.contains(u));
            assert(udocs[u] == doc_of(docs, e));
        }
    }
}

/// The ids of the stored vectors, as the index keeps them.
pub open spec fn stored_uids(internals: Map<Seq<char>, VectorId>) -> Set<u32> {
    Set::new(|u: u32| exists|e: Seq<char>| internals.contains_key(e) && #[trigger] uid_of(internals[e]) == u)
}

impl MetadataStore {
    /// The ids of all stored vectors, as a bitmap.
    fn stored_ids(&self) -> (r: RoaringBitmap)
        ensures
            bitmap_ids(r) == stored_uids(self.internals()),
    {
        let n = self.ext_to_id.len();
        let ghost ps = self.ext_to_id.pairs();
        let mut acc = bitmap_new();
        let mut i: usize = 0;
        while i < n
            invariant
                n == ps.len(),
                ps == self.ext_to_id.pairs(),
                crate::strmap::keys_distinct(ps),
                i <= n,
                bitmap_ids(acc) == Set::new(|u: u32| exists|j: int| 0 <= j < i && #[trigger] uid_of(ps[j].1) == u),
            decreases n - i,
        {
            let id = *self.ext_to_id.value_at(i);
            let ghost before = bitmap_ids(acc);
            bitmap_insert(&mut acc, id.0 as u32);
            proof {
                assert(bitmap_ids(acc) =~= Set::new(|u: u32| exists|j: int| 0 <= j < i + 1 && #[trigger] uid_of(ps[j].1) == u)) by {
                    assert forall|u: u32| bitmap_ids(acc).contains(u) implies exists|j: int| 0 <= j < i + 1 && #[trigger] uid_of(ps[j].1) == u by {
                        if u == (id.0 as u32) {
                            assert(uid_of(ps[i as int].1) == u);
                        }
                    }
                }
            }
            i = i + 1;
        }
        proof {
            let m = self.internals();
            assert(bitmap_ids(acc) =~= stored_uids(m)) by {
                assert forall|u: u32| bitmap_ids(acc).contains(u) implies stored_uids(m).contains(u) by {
                    let j = choose|j: int| 0 <= j < n && #[trigger] uid_of(ps[j].1) == u;
                    crate::strmap::lemma_pairs_map_lookup(ps, ps[j].0@);
                    assert(crate::strmap::has_key(ps, ps[j].0@));
                    let j2 = crate::strmap::key_index(ps, ps[j].0@);
                    assert(j == j2) by {
                        if j < j2 {
                            assert(ps[j].0@ != ps[j2].0@);
                        } else if j2 < j {
                            assert(ps[j2].0@ != ps[j].0@);
                        }
                    }
                    assert(m.contains_key(ps[j].0@) && uid_of(m[ps[j].0@]) == u);
                }
                assert forall|u: u32| stored_uids(m).contains(u) implies bitmap_ids(acc).contains(u) by {
                    let e = choose|e: Seq<char>| m.contains_key(e) && #[trigger] uid_of(m[e]) == u;
                    crate::strmap::lemma_pairs_map_lookup(ps, e);
                    let j = crate::strmap::key_index(ps, e);
                    assert(uid_of(ps[j].1) == u);
                }
            }
        }
        acc
    }

    /// The eligible ids of an equality (see `eq_eligible`).
    fn eq_ids(&self, field: &str, value: &JsonValue) -> (r: Option<RoaringBitmap>)
        ensures
            match r {
                Some(b) => eq_eligible(self.index(), field@, *value) == Some(bitmap_ids(b)),
                None => eq_eligible(self.index(), field@, *value) is None,
            },
    {
        match self.inverted.ids_eq(field, value) {
            Some(b) => Some(b),
            None => {
                if self.inverted.has_field(field) {
                    Some(bitmap_new())
                } else {
                    None
                }
            },
        }
    }

    /// The eligible id set of a filter, when the index and the set of stored
    /// ids decide it; `None` tells the caller to fall back to filtering each
    /// document. `law_store_eligible_is_matching` says what an answer holds.
    /// `$ne` is always decided: on a field that no document holds it admits
    /// every stored id.
    #[verifier::loop_isolation(false)]
    pub fn eligible_ids(&self, filter: &Filter) -> (r: Option<RoaringBitmap>)
        ensures
            match r {
                Some(b) => eligible(self.index(), stored_uids(self.internals()), *filter) == Some(bitmap_ids(b)),
                None => eligible(self.index(), stored_uids(self.internals()), *filter) is None,
            },
        decreases *filter,
    {
        match filter {
            Filter::Eq { field, value } => self.eq_ids(field.as_str(), value),
            Filter::Cmp { field, op, value } => match op {
                FilterOp::Eq => self.eq_ids(field.as_str(), value),
                FilterOp::In => match value {
                    JsonValue::Array(arr) => self.inverted.ids_in(field.as_str(), arr.as_slice()),
                    _ => None,
                },
                FilterOp::Ne => {
                    let all = self.stored_ids();
                    let eq = match self.inverted.ids_eq(field.as_str(), value) {
                        Some(b) => b,
                        None => bitmap_new(),
                    };
                    Some(bitmap_difference(&all, &eq))
                },
                _ => None,
            },
            Filter::And(items) => {
                if items.len() == 0 {
                    return None;
                }
                proof {
                    assert(decreases_to!(*filter => *items));
                    assert(decreases_to!(*items => items@[0]));
                }
                let mut acc = match self.eligible_ids(&items[0]) {
                    Some(b) => b,
                    None => {
                        proof { lemma_and_none_stays(self.index(), stored_uids(self.internals()), items@, 1, items@.len() as int); }
                        return None;
                    },
                };
                let mut i: usize = 1;
                while i < items.len()
                    invariant
                        *filter == Filter::And(*items),
                        1 <= i <= items@.len(),
                        and_eligible(self.index(), stored_uids(self.internals()), items@, i as int) == Some(bitmap_ids(acc)),
                    decreases items@.len() - i,
                {
                    proof {
                        assert(decreases_to!(*filter => *items));
                        assert(decreases_to!(*items => items@[i as int]));
                    }
                    match self.eligible_ids(&items[i]) {
                        Some(b) => {
                            bitmap_intersect_with(&mut acc, &b);
                        },
                        None => {
                            proof { lemma_and_none_stays(self.index(), stored_uids(self.internals()), items@, i + 1, items@.len() as int); }
                            return None;
                        },
                    }
                    i = i + 1;
                }
                Some(acc)
            },
            Filter::Or(items) => {
                let mut acc = bitmap_new();
                let mut i: usize = 0;
                while i < items.len()
                    invariant
                        *filter == Filter::Or(*items),
                        i <= items@.len(),
                        or_eligible(self.index(), stored_uids(self.internals()), items@, i as int) == Some(bitmap_ids(acc)),
                    decreases items@.len() - i,
                {
                    proof {
                        assert(decreases_to!(*filter => *items));
                        assert(decreases_to!(*items => items@[i as int]));
                    }
                    match self.eligible_ids(&items[i]) {
                        Some(b) => {
                            bitmap_union_with(&mut acc, &b);
                        },
                        None => {
                            proof { lemma_or_none_stays(self.index(), stored_uids(self.internals()), items@, i + 1, items@.len() as int); }
                            return None;
                        },
                    }
                    i = i + 1;
                }
                Some(acc)
            },
        }
    }
}

/// The two id maps are inverse to each other: each external id's internal
/// id maps back to it, and each internal id's external id maps back to it.
pub open spec fn ids_consistent(
    externals: Map<Seq<char>, Seq<char>>,
    internals: Map<Seq<char>, VectorId>,
) -> bool {
    &&& forall|e: Seq<char>| #[trigger]
        internals.contains_key(e) ==> externals.contains_key(id_text(internals[e]))
            && externals[id_text(internals[e])] == e
    &&& forall|t: Seq<char>| #[trigger]
        externals.contains_key(t) ==> internals.contains_key(externals[t]) && id_text(
            internals[externals[t]],
        ) == t
}

/// Distinct ids are written differently.
pub proof fn lemma_id_text_injective(a: VectorId, b: VectorId)
    ensures
        id_text(a) == id_text(b) ==> a == b,
{
    crate::text::lemma_decimal_roundtrip(a.0 as nat);
    crate::text::lemma_decimal_roundtrip(b.0 as nat);
}

/// The two id maps agree pair by pair: an external id points at an
/// internal id exactly when that id's entry points back at it. (Weaker than
/// `ids_consistent`, which also asks every reverse key to be an id's text.)
pub open spec fn ids_paired(externals: Map<Seq<char>, Seq<char>>, internals: Map<Seq<char>, VectorId>) -> bool {
    &&& forall|e: Seq<char>| #[trigger]
        internals.contains_key(e) ==> externals.contains_key(id_text(internals[e])) && externals[id_text(
            internals[e],
        )] == e
    &&& forall|i: VectorId| #[trigger]
        externals.contains_key(id_text(i)) ==> internals.contains_key(externals[id_text(i)])
            && internals[externals[id_text(i)]] == i
}

proof fn lemma_paired_at(externals: Map<Seq<char>, Seq<char>>, internals: Map<Seq<char>, VectorId>, e: Seq<char>, i: VectorId)
    requires
        ids_paired(externals, internals),
    ensures
        (internals.contains_key(e) && internals[e] == i) <==> (externals.contains_key(id_text(i))
            && externals[id_text(i)] == e),
{
}

/// `upsert` keeps the two id maps paired.
pub proof fn law_upsert_keeps_ids_paired(
    externals: Map<Seq<char>, Seq<char>>,
    internals: Map<Seq<char>, VectorId>,
    ext: Seq<char>,
    id: VectorId,
)
    requires
        ids_paired(externals, internals),
    ensures
        ids_paired(upsert_externals(externals, internals, ext, id), upsert_internals(externals, internals, ext, id)),
{
    let e2 = upsert_externals(externals, internals, ext, id);
    let i2 = upsert_internals(externals, internals, ext, id);
    let e1 = externals_unstaled(externals, internals, ext, id);
    assert forall|e: Seq<char>, i: VectorId|
        (i2.contains_key(e) && i2[e] == i) <==> (e2.contains_key(id_text(i)) && e2[id_text(i)] == e) by {
        lemma_id_text_injective(i, id);
        lemma_paired_at(externals, internals, e, i);
        lemma_paired_at(externals, internals, e, id);
        lemma_paired_at(externals, internals, ext, i);
        if externals.contains_key(id_text(i)) {
            lemma_paired_at(externals, internals, externals[id_text(i)], i);
        }
        if externals.contains_key(id_text(id)) {
            lemma_paired_at(externals, internals, externals[id_text(id)], id);
        }
        match stale_id(internals, ext, id) {
            Some(o) => {
                lemma_id_text_injective(i, o);
                lemma_id_text_injective(o, id);
                lemma_paired_at(externals, internals, ext, o);
                lemma_paired_at(externals, internals, e, o);
            },
            None => {
                if internals.contains_key(ext) {
                    lemma_paired_at(externals, internals, ext, internals[ext]);
                }
            },
        }
    }
    assert forall|e: Seq<char>| #[trigger] i2.contains_key(e) implies e2.contains_key(id_text(i2[e])) && e2[id_text(
        i2[e],
    )] == e by {
        assert(i2.contains_key(e) && i2[e] == i2[e]);
    }
    assert forall|i: VectorId| #[trigger] e2.contains_key(id_text(i)) implies i2.contains_key(e2[id_text(i)])
        && i2[e2[id_text(i)]] == i by {
        assert(e2[id_text(i)] == e2[id_text(i)]);
    }
}

/// `remove` keeps the two id maps paired.
pub proof fn law_remove_keeps_ids_paired(
    externals: Map<Seq<char>, Seq<char>>,
    internals: Map<Seq<char>, VectorId>,
    ext: Seq<char>,
)
    requires
        ids_paired(externals, internals),
        internals.contains_key(ext),
    ensures
        ids_paired(externals.remove(id_text(internals[ext])), internals.remove(ext)),
{
    let o = internals[ext];
    let e2 = externals.remove(id_text(o));
    let i2 = internals.remove(ext);
    lemma_paired_at(externals, internals, ext, o);
    assert forall|e: Seq<char>, i: VectorId|
        (i2.contains_key(e) && i2[e] == i) <==> (e2.contains_key(id_text(i)) && e2[id_text(i)] == e) by {
        lemma_id_text_injective(i, o);
        lemma_paired_at(externals, internals, e, i);
        lemma_paired_at(externals, internals, ext, i);
        if externals.contains_key(id_text(i)) {
            lemma_paired_at(externals, internals, externals[id_text(i)], i);
        }
    }
    assert forall|e: Seq<char>| #[trigger] i2.contains_key(e) implies e2.contains_key(id_text(i2[e])) && e2[id_text(
        i2[e],
    )] == e by {
        assert(i2.contains_key(e) && i2[e] == i2[e]);
    }
    assert forall|i: VectorId| #[trigger] e2.contains_key(id_text(i)) implies i2.contains_key(e2[id_text(i)])
        && i2[e2[id_text(i)]] == i by {
        assert(e2[id_text(i)] == e2[id_text(i)]);
    }
}

/// `upsert` keeps the two id maps inverse to each other.
pub proof fn law_upsert_keeps_ids_consistent(
    externals: Map<Seq<char>, Seq<char>>,
    internals: Map<Seq<char>, VectorId>,
    ext: Seq<char>,
    id: VectorId,
)
    requires
        ids_consistent(externals, internals),
    ensures
        ids_consistent(
            upsert_externals(externals, internals, ext, id),
            upsert_internals(externals, internals, ext, id),
        ),
{
    let e1 = externals_unstaled(externals, internals, ext, id);
    let e2 = upsert_externals(externals, internals, ext, id);
    let i2 = upsert_internals(externals, internals, ext, id);
    assert forall|e: Seq<char>| #[trigger] i2.contains_key(e) implies e2.contains_key(
        id_text(i2[e]),
    ) && e2[id_text(i2[e])] == e by {
        if e != ext {
            lemma_id_text_injective(internals[e], id);
            if internals.contains_key(ext) {
                lemma_id_text_injective(internals[e], internals[ext]);
            }
        }
    }
    assert forall|t: Seq<char>| #[trigger] e2.contains_key(t) implies i2.contains_key(e2[t])
        && id_text(i2[e2[t]]) == t by {
        if t != id_text(id) {
            let e = externals[t];
            if internals.contains_key(ext) {
                lemma_id_text_injective(internals[e], internals[ext]);
            }
            lemma_id_text_injective(internals[e], id);
        }
    }
}

/// `remove` keeps the two id maps inverse to each other.
pub proof fn law_remove_keeps_ids_consistent(
    externals: Map<Seq<char>, Seq<char>>,
    internals: Map<Seq<char>, VectorId>,
    ext: Seq<char>,
)
    requires
        ids_consistent(externals, internals),
        internals.contains_key(ext),
    ensures
        ids_consistent(externals.remove(id_text(internals[ext])), internals.remove(ext)),
{
    let t0 = id_text(internals[ext]);
    let e2 = externals.remove(t0);
    let i2 = internals.remove(ext);
    assert forall|e: Seq<char>| #[trigger] i2.contains_key(e) implies e2.contains_key(
        id_text(i2[e]),
    ) && e2[id_text(i2[e])] == e by {
        lemma_id_text_injective(internals[e], internals[ext]);
    }
}

/// The metadata of a vector that has none: an empty object.
pub fn empty_metadata() -> (r: JsonValue)
    ensures
        match r {
            JsonValue::Object(m) => m@ == Map::<Seq<char>, JsonValue>::empty(),
            _ => false,
        },
{
    JsonValue::Object(StrMap::new())
}

/// The key under which a persisted store keeps its id map.
pub open spec fn id_map_key() -> Seq<char> {
    seq!['_', '_', 'i', 'd', '_', 'm', 'a', 'p', '_', '_']
}

/// The entries of a persisted id map, internal id text → external id, when
/// it is an object whose values are all strings; none otherwise.
pub open spec fn id_pairs(doc: Option<JsonValue>) -> Seq<(Seq<char>, Seq<char>)> {
    match doc {
        Some(JsonValue::Object(m)) => if forall|i: int|
            0 <= i < m.pairs().len() ==> (#[trigger] m.pairs()[i]).1 is String {
            m.pairs().map_values(|p: (String, JsonValue)| (p.0@, p.1->String_0@))
        } else {
            Seq::empty()
        },
        _ => Seq::empty(),
    }
}

/// external id → internal id, from the id-map entries in order: each entry
/// whose key reads as a `u64` points its external id at that id.
pub open spec fn internals_from(ps: Seq<(Seq<char>, Seq<char>)>) -> Map<Seq<char>, VectorId>
    decreases ps.len(),
{
    if ps.len() == 0 {
        Map::empty()
    } else {
        let m = internals_from(ps.drop_last());
        match crate::text::parse_unsigned(ps.last().0, u64::MAX as nat) {
            Some(v) => m.insert(ps.last().1, VectorId(v as u64)),
            None => m,
        }
    }
}

/// The inverted index rebuilt from the id-map entries in order: each entry
/// whose key reads as a `u64` and whose external id has a document indexes
/// that document for that id.
pub open spec fn index_from(docs: Map<Seq<char>, JsonValue>, ps: Seq<(Seq<char>, Seq<char>)>) -> Map<
    Seq<char>,
    Map<Seq<char>, Set<u32>>,
>
    decreases ps.len(),
{
    if ps.len() == 0 {
        Map::empty()
    } else {
        let ix = index_from(docs, ps.drop_last());
        match crate::text::parse_unsigned(ps.last().0, u64::MAX as nat) {
            Some(v) => if docs.contains_key(ps.last().1) {
                let id = VectorId(v as u64);
                index_doc(drop_id(ix, uid_of(id)), uid_of(id), docs[ps.last().1])
            } else {
                ix
            },
            None => ix,
        }
    }
}

/// Reads a key as a `u64` the way `str::parse` does.
fn parse_u64(s: &str) -> (r: Option<u64>)
    ensures
        match r {
            Some(v) => crate::text::parse_unsigned(s@, u64::MAX as nat) == Some(v as nat),
            None => crate::text::parse_unsigned(s@, u64::MAX as nat) is None,
        },
{
    let cs = crate::text::str_chars(s);
    crate::text::parse_unsigned_chars(&cs, u64::MAX)
}

/// The persisted id map as a map of strings, when it is an object whose
/// values are all strings; empty otherwise.
fn id_map_from(doc: Option<JsonValue>) -> (r: StrMap<String>)
    ensures
        r.pairs().map_values(|p: (String, String)| (p.0@, p.1@)) == id_pairs(doc),
{
    let ghost d0 = doc;
    match doc {
        Some(JsonValue::Object(m)) => {
            let ghost es = m.pairs();
            let ghost m0 = m;
            let entries = m.into_entries();
            let n = entries.len();
            let mut rest = reversed(entries);
            let mut out: Vec<(String, String)> = Vec::new();
            let mut i: usize = 0;
            while i < n
                invariant
                    n == es.len(),
                    d0 == Some(JsonValue::Object(m0)),
                    d0 == doc,
                    es == m0.pairs(),
                    crate::strmap::keys_distinct(es),
                    i <= n,
                    rest@.len() == n - i,
                    forall|j: int| 0 <= j < rest@.len() ==> #[trigger] rest@[j] == es[n - 1 - j],
                    out@.len() == i,
                    forall|j: int| 0 <= j < i ==> (#[trigger] es[j]).1 is String,
                    forall|j: int|
                        0 <= j < i ==> #[trigger] out@[j].0 == es[j].0 && out@[j].1@ == es[j].1->String_0@,
                decreases n - i,
            {
                let (k, v) = rest.pop().unwrap();
                assert(k == es[i as int].0 && v == es[i as int].1);
                match v {
                    JsonValue::String(t) => {
                        out.push((k, t));
                    },
                    _ => {
                        proof {
                            assert(!(m0.pairs()[i as int].1 is String));
                            assert(id_pairs(d0) == Seq::<(Seq<char>, Seq<char>)>::empty());
                        }
                        let r = StrMap::new();
                        assert(r.pairs().map_values(|p: (String, String)| (p.0@, p.1@)) =~= id_pairs(d0));
                        return r;
                    },
                }
                i = i + 1;
            }
            proof {
                assert forall|a: int, b: int| 0 <= a < b < out@.len() implies out@[a].0@ != out@[b].0@ by {
                    assert(es[a].0@ != es[b].0@);
                }
            }
            let r = StrMap::from_entries(out);
            assert(r.pairs().map_values(|p: (String, String)| (p.0@, p.1@)) =~= id_pairs(d0));
            r
        },
        _ => {
            let r = StrMap::new();
            assert(r.pairs().map_values(|p: (String, String)| (p.0@, p.1@)) =~= id_pairs(d0));
            r
        },
    }
}

/// The persisted id map of a document map, if it holds one.
pub open spec fn persisted_ids(map: Map<Seq<char>, JsonValue>) -> Seq<(Seq<char>, Seq<char>)> {
    id_pairs(
        if map.contains_key(id_map_key()) {
            Some(map[id_map_key()])
        } else {
            None
        },
    )
}

impl MetadataStore {
    /// Rebuilds the index from the id map and the documents.
    fn rebuild_inverted(&mut self)
        ensures
            final(self).docs() == old(self).docs(),
            final(self).id_map == old(self).id_map,
            final(self).ext_to_id == old(self).ext_to_id,
            final(self).by_external == old(self).by_external,
            final(self).index() == index_from(
                old(self).docs(),
                old(self).id_map.pairs().map_values(|p: (String, String)| (p.0@, p.1@)),
            ),
    {
        self.inverted.clear();
        let ghost ps = self.id_map.pairs().map_values(|p: (String, String)| (p.0@, p.1@));
        let n = self.id_map.len();
        let mut i: usize = 0;
        while i < n
            invariant
                n == self.id_map.pairs().len(),
                ps == self.id_map.pairs().map_values(|p: (String, String)| (p.0@, p.1@)),
                self.docs() == old(self).docs(),
                self.by_external == old(self).by_external,
                self.id_map == old(self).id_map,
                self.ext_to_id == old(self).ext_to_id,
                i <= n,
                self.index() == index_from(self.docs(), ps.take(i as int)),
            decreases n - i,
        {
            let k = self.id_map.key_at(i);
            let ext = self.id_map.value_at(i);
            proof {
                assert(ps.take(i + 1).drop_last() =~= ps.take(i as int));
                assert(ps.take(i + 1).last() == (k@, ext@));
            }
            match parse_u64(k.as_str()) {
                Some(vid) => {
                    match self.by_external.get(ext.as_str()) {
                        Some(meta) => {
                            self.inverted.upsert(VectorId(vid), meta);
                        },
                        None => {},
                    }
                },
                None => {},
            }
            i = i + 1;
        }
        proof {
            assert(ps.take(n as int) =~= ps);
        }
    }

    /// Rebuilds a store from its persisted documents: the entry under
    /// `__id_map__` (internal id text → external id) is taken out and gives
    /// both id maps, and the index is rebuilt from the documents.
    pub fn load_from_persisted(map: StrMap<JsonValue>) -> (r: Self)
        ensures
            r.docs() == map@.remove(id_map_key()),
            forall|k: Seq<char>|
                r.externals().contains_key(k) <==> exists|i: int|
                    0 <= i < persisted_ids(map@).len() && #[trigger] persisted_ids(map@)[i].0 == k,
            forall|i: int|
                0 <= i < persisted_ids(map@).len() ==> r.externals()[#[trigger] persisted_ids(map@)[i].0]
                    == persisted_ids(map@)[i].1,
            r.internals() == internals_from(persisted_ids(map@)),
            r.index() == index_from(r.docs(), persisted_ids(map@)),
    {
        let ghost m0 = map@;
        let mut docs = map;
        proof {
            reveal_strlit("__id_map__");
        }
        let key = "__id_map__";
        assert(key@ =~= id_map_key());
        let raw = docs.remove(key);
        let id_map = id_map_from(raw);
        let ghost ps = id_map.pairs().map_values(|p: (String, String)| (p.0@, p.1@));
        assert(ps == persisted_ids(m0)) by {
            assert(m0.contains_key(id_map_key()) == (raw is Some));
        }
        let n = id_map.len();
        let mut ext_to_id: StrMap<VectorId> = StrMap::new();
        let mut i: usize = 0;
        while i < n
            invariant
                n == id_map.pairs().len(),
                ps == id_map.pairs().map_values(|p: (String, String)| (p.0@, p.1@)),
                i <= n,
                ext_to_id@ == internals_from(ps.take(i as int)),
            decreases n - i,
        {
            let k = id_map.key_at(i);
            let ext = id_map.value_at(i);
            proof {
                assert(ps.take(i + 1).drop_last() =~= ps.take(i as int));
                assert(ps.take(i + 1).last() == (k@, ext@));
            }
            match parse_u64(k.as_str()) {
                Some(vid) => {
                    ext_to_id.insert(ext.clone(), VectorId(vid));
                },
                None => {},
            }
            i = i + 1;
        }
        proof {
            assert(ps.take(n as int) =~= ps);
        }
        let mut store = MetadataStore {
            by_external: docs,
            id_map,
            ext_to_id,
            inverted: InvertedIndex::new(),
        };
        store.rebuild_inverted();
        let mapped = store.id_map.len();
        proof {
            lemma_strings_view(store.id_map, ps);
        }
        store
    }
}

impl MetadataStore {
    /// A copy of the documents, by external id, for persisting.
    pub fn to_persisted(&self) -> (r: StrMap<JsonValue>)
        ensures
            forall|k: Seq<char>| #[trigger] r@.contains_key(k) == self.docs().contains_key(k),
            forall|k: Seq<char>|
                r@.contains_key(k) ==> json_eq(#[trigger] r@[k], self.docs()[k], EqMode::Same),
    {
        let n = self.by_external.len();
        let ghost es = self.by_external.pairs();
        let mut out: Vec<(String, JsonValue)> = Vec::new();
        let mut i: usize = 0;
        while i < n
            invariant
                n == es.len(),
                es == self.by_external.pairs(),
                crate::strmap::keys_distinct(es),
                i <= n,
                out@.len() == i,
                forall|j: int| 0 <= j < i ==> #[trigger] out@[j].0 == es[j].0,
                forall|j: int| 0 <= j < i ==> json_eq(#[trigger] out@[j].1, es[j].1, EqMode::Same),
            decreases n - i,
        {
            let k = self.by_external.key_at(i).clone();
            let c = json_clone(self.by_external.value_at(i));
            out.push((k, c));
            i = i + 1;
        }
        proof {
            assert forall|j: int| 0 <= j < es.len() implies #[trigger] out@[j].0@ == es[j].0@ by {}
            lemma_pairs_map_same_keys(es, out@);
        }
        let ghost oe = out@;
        let r = StrMap::from_entries(out);
        proof {
            assert forall|k: Seq<char>| r@.contains_key(k) implies json_eq(#[trigger] r@[k], self.docs()[k], EqMode::Same) by {
                crate::strmap::lemma_pairs_map_lookup(es, k);
                let j = crate::strmap::key_index(es, k);
                assert(es[j].0@ == k);
            }
        }
        r
    }

    /// The external ids of the stored documents, each once.
    pub fn external_ids(&self) -> (r: Vec<String>)
        ensures
            forall|k: Seq<char>|
                self.docs().contains_key(k) <==> exists|i: int| 0 <= i < r@.len() && #[trigger] r@[i]@ == k,
            forall|a: int, b: int| 0 <= a < b < r@.len() ==> r@[a]@ != r@[b]@,
    {
        let n = self.by_external.len();
        let ghost es = self.by_external.pairs();
        let mut out: Vec<String> = Vec::new();
        let mut i: usize = 0;
        while i < n
            invariant
                n == es.len(),
                es == self.by_external.pairs(),
                crate::strmap::keys_distinct(es),
                i <= n,
                out@.len() == i,
                forall|j: int| 0 <= j < i ==> #[trigger] out@[j] == es[j].0,
            decreases n - i,
        {
            out.push(self.by_external.key_at(i).clone());
            i = i + 1;
        }
        proof {
            assert forall|k: Seq<char>|
                self.docs().contains_key(k) <==> exists|i: int| 0 <= i < out@.len() && #[trigger] out@[i]@ == k by {
                crate::strmap::lemma_pairs_map_lookup(es, k);
                if self.docs().contains_key(k) {
                    let j = crate::strmap::key_index(es, k);
                    assert(out@[j]@ == k);
                }
                if exists|i: int| 0 <= i < out@.len() && #[trigger] out@[i]@ == k {
                    let i = choose|i: int| 0 <= i < out@.len() && #[trigger] out@[i]@ == k;
                    assert(es[i].0@ == k);
                }
            }
            assert forall|a: int, b: int| 0 <= a < b < out@.len() implies out@[a]@ != out@[b]@ by {
                assert(es[a].0@ != es[b].0@);
            }
        }
        out
    }

    /// The id mapping, as (internal id text, external id) pairs, each
    /// internal id once.
    pub fn id_mappings(&self) -> (r: Vec<(String, String)>)
        ensures
            forall|k: Seq<char>|
                self.externals().contains_key(k) <==> exists|i: int| 0 <= i < r@.len() && #[trigger] r@[i].0@ == k,
            forall|i: int| 0 <= i < r@.len() ==> self.externals()[#[trigger] r@[i].0@] == r@[i].1@,
            forall|a: int, b: int| 0 <= a < b < r@.len() ==> r@[a].0@ != r@[b].0@,
    {
        let n = self.id_map.len();
        let ghost es = self.id_map.pairs();
        let ghost ps = es.map_values(|p: (String, String)| (p.0@, p.1@));
        let mut out: Vec<(String, String)> = Vec::new();
        let mut i: usize = 0;
        while i < n
            invariant
                n == es.len(),
                es == self.id_map.pairs(),
                ps == es.map_values(|p: (String, String)| (p.0@, p.1@)),
                crate::strmap::keys_distinct(es),
                i <= n,
                out@.len() == i,
                forall|j: int| 0 <= j < i ==> #[trigger] out@[j] == es[j],
            decreases n - i,
        {
            out.push((self.id_map.key_at(i).clone(), self.id_map.value_at(i).clone()));
            i = i + 1;
        }
        proof {
            lemma_strings_view(self.id_map, ps);
            assert forall|k: Seq<char>|
                self.externals().contains_key(k) <==> exists|i: int| 0 <= i < out@.len() && #[trigger] out@[i].0@ == k by {
                if self.externals().contains_key(k) {
                    let i = choose|i: int| 0 <= i < ps.len() && #[trigger] ps[i].0 == k;
                    assert(out@[i].0@ == k);
                }
                if exists|i: int| 0 <= i < out@.len() && #[trigger] out@[i].0@ == k {
                    let i = choose|i: int| 0 <= i < out@.len() && #[trigger] out@[i].0@ == k;
                    assert(ps[i].0 == k);
                }
            }
            assert forall|i: int| 0 <= i < out@.len() implies self.externals()[#[trigger] out@[i].0@] == out@[i].1@ by {
                assert(ps[i].0 == out@[i].0@);
            }
            assert forall|a: int, b: int| 0 <= a < b < out@.len() implies out@[a].0@ != out@[b].0@ by {
                assert(es[a].0@ != es[b].0@);
            }
        }
        out
    }
}

} // verus!
