//! The metadata filter language: parsing from JSON, writing back to JSON,
//! and evaluation against a metadata document.

use vstd::prelude::*;
use crate::json::{json_eq, json_equal, EqMode, JsonNumber, JsonValue};
use crate::strmap::{key_pos, lemma_key_pos, reversed, StrMap};
use crate::text::{push_char, str_chars, str_eq};

verus! {

#[derive(Debug, Clone, Copy, PartialEq, Eq, Structural)]
pub enum FilterOp {
    Eq,
    Ne,
    Gt,
    Gte,
    Lt,
    Lte,
    In,
}

/// A filter over metadata documents.
#[derive(Debug)]
pub enum Filter {
    /// field must equal value
    Eq { field: String, value: JsonValue },
    /// Comparison / inequality / membership on a field.
    Cmp { field: String, op: FilterOp, value: JsonValue },
    And(Vec<Filter>),
    Or(Vec<Filter>),
}

/// Why a JSON document is not a filter.
#[derive(Debug)]
pub enum MetadataError {
    /// `$and` holds something other than an array.
    AndNotArray,
    /// `$or` holds something other than an array.
    OrNotArray,
    /// A key starting with `$` among several top-level keys.
    UnexpectedTopLevelOperator(String),
    /// Neither an object with keys nor a known form.
    UnsupportedExpression,
    /// `$in` holds something other than an array.
    InValueNotArray,
    /// An operator key other than `$eq $ne $gt $gte $lt $lte $in`.
    UnsupportedOperator(String),
}

pub open spec fn key_and() -> Seq<char> {
    seq!['$', 'a', 'n', 'd']
}

pub open spec fn key_or() -> Seq<char> {
    seq!['$', 'o', 'r']
}

/// The operator an operator key names.
pub open spec fn op_for_key(k: Seq<char>) -> Option<FilterOp> {
    if k == seq!['$', 'e', 'q'] {
        Some(FilterOp::Eq)
    } else if k == seq!['$', 'n', 'e'] {
        Some(FilterOp::Ne)
    } else if k == seq!['$', 'g', 't'] {
        Some(FilterOp::Gt)
    } else if k == seq!['$', 'g', 't', 'e'] {
        Some(FilterOp::Gte)
    } else if k == seq!['$', 'l', 't'] {
        Some(FilterOp::Lt)
    } else if k == seq!['$', 'l', 't', 'e'] {
        Some(FilterOp::Lte)
    } else if k == seq!['$', 'i', 'n'] {
        Some(FilterOp::In)
    } else {
        None
    }
}

/// The key that names an operator.
pub open spec fn key_for_op(op: FilterOp) -> Seq<char> {
    match op {
        FilterOp::Eq => seq!['$', 'e', 'q'],
        FilterOp::Ne => seq!['$', 'n', 'e'],
        FilterOp::Gt => seq!['$', 'g', 't'],
        FilterOp::Gte => seq!['$', 'g', 't', 'e'],
        FilterOp::Lt => seq!['$', 'l', 't'],
        FilterOp::Lte => seq!['$', 'l', 't', 'e'],
        FilterOp::In => seq!['$', 'i', 'n'],
    }
}

// ---------------------------------------------------------------------------
// Parsing: what error, if any, a document gives, and what filter it reads as.
// ---------------------------------------------------------------------------

/// The error, if any, of one `op: value` pair.
pub open spec fn op_error(k: String, v: JsonValue) -> Option<MetadataError> {
    match op_for_key(k@) {
        Some(FilterOp::In) => if v is Array {
            None
        } else {
            Some(MetadataError::InValueNotArray)
        },
        Some(_) => None,
        None => Some(MetadataError::UnsupportedOperator(k)),
    }
}

/// The first error among the first `n` operator pairs of a field that has
/// several of them (each read as its own `{field: {op: value}}` filter).
pub open spec fn ops_error(field: Seq<char>, es: Seq<(String, JsonValue)>, n: int) -> Option<
    MetadataError,
>
    decreases n,
{
    if n <= 0 {
        None
    } else {
        match ops_error(field, es, n - 1) {
            Some(e) => Some(e),
            None => if field == key_and() {
                Some(MetadataError::AndNotArray)
            } else if field == key_or() {
                Some(MetadataError::OrNotArray)
            } else {
                op_error(es[n - 1].0, es[n - 1].1)
            },
        }
    }
}

/// The error, if any, of an operator object under a field.
pub open spec fn field_ops_error(field: Seq<char>, es: Seq<(String, JsonValue)>) -> Option<
    MetadataError,
> {
    if es.len() == 1 {
        op_error(es[0].0, es[0].1)
    } else {
        ops_error(field, es, es.len() as int)
    }
}

/// The error, if any, of one `field: value` clause of a multi-key object.
pub open spec fn clause_error(k: String, v: JsonValue) -> Option<MetadataError> {
    if k@.len() > 0 && k@[0] == '$' {
        Some(MetadataError::UnexpectedTopLevelOperator(k))
    } else {
        match v {
            JsonValue::Object(ops) => field_ops_error(k@, ops.pairs()),
            _ => None,
        }
    }
}

/// The first error among the first `n` clauses of a multi-key object.
pub open spec fn clauses_error(es: Seq<(String, JsonValue)>, n: int) -> Option<MetadataError>
    decreases n,
{
    if n <= 0 {
        None
    } else {
        match clauses_error(es, n - 1) {
            Some(e) => Some(e),
            None => clause_error(es[n - 1].0, es[n - 1].1),
        }
    }
}

/// The error, if any, that parsing a document gives.
pub closed spec fn parse_error(v: JsonValue) -> Option<MetadataError>
    decreases v,
{
    match v {
        JsonValue::Object(m) => {
            let es = m.entries@;
            if es.len() == 1 {
                if es[0].0@ == key_and() {
                    match es[0].1 {
                        JsonValue::Array(items) => items_error(items@, items@.len() as int),
                        _ => Some(MetadataError::AndNotArray),
                    }
                } else if es[0].0@ == key_or() {
                    match es[0].1 {
                        JsonValue::Array(items) => items_error(items@, items@.len() as int),
                        _ => Some(MetadataError::OrNotArray),
                    }
                } else {
                    match es[0].1 {
                        JsonValue::Object(ops) => field_ops_error(es[0].0@, ops.entries@),
                        _ => None,
                    }
                }
            } else if es.len() > 0 {
                clauses_error(es, es.len() as int)
            } else {
                Some(MetadataError::UnsupportedExpression)
            }
        },
        _ => Some(MetadataError::UnsupportedExpression),
    }
}

/// The first error among the first `n` sub-filters of `$and` / `$or`.
pub closed spec fn items_error(items: Seq<JsonValue>, n: int) -> Option<MetadataError>
    decreases items, n,
{
    if n <= 0 || n > items.len() {
        None
    } else {
        match items_error(items, n - 1) {
            Some(e) => Some(e),
            None => parse_error(items[n - 1]),
        }
    }
}

/// `g` is what one `op: value` pair under `field` reads as.
pub open spec fn op_reads_as(field: String, k: String, v: JsonValue, g: Filter) -> bool {
    match op_for_key(k@) {
        Some(FilterOp::Eq) => g == Filter::Eq { field, value: v },
        Some(op) => g == Filter::Cmp { field, op, value: v },
        None => false,
    }
}

/// `f` is what an operator object under `field` reads as: the one
/// comparison, or the conjunction of all of them in order.
pub open spec fn field_ops_read_as(field: String, es: Seq<(String, JsonValue)>, f: Filter) -> bool {
    if es.len() == 1 {
        op_reads_as(field, es[0].0, es[0].1, f)
    } else {
        match f {
            Filter::And(fs) => fs@.len() == es.len() && forall|i: int|
                0 <= i < es.len() ==> #[trigger] op_reads_as(field, es[i].0, es[i].1, fs@[i]),
            _ => false,
        }
    }
}

/// `g` is what one `field: value` clause reads as.
pub open spec fn clause_reads_as(k: String, v: JsonValue, g: Filter) -> bool {
    match v {
        JsonValue::Object(ops) => field_ops_read_as(k, ops.pairs(), g),
        _ => g == Filter::Eq { field: k, value: v },
    }
}

/// `f` is the filter a document reads as (when it reads without error).
pub closed spec fn parses_as(v: JsonValue, f: Filter) -> bool
    decreases v,
{
    match v {
        JsonValue::Object(m) => {
            let es = m.entries@;
            if es.len() == 1 {
                if es[0].0@ == key_and() || es[0].0@ == key_or() {
                    match es[0].1 {
                        JsonValue::Array(items) => match f {
                            Filter::And(fs) => es[0].0@ == key_and() && fs@.len() == items@.len()
                                && forall|i: int|
                                0 <= i < items@.len() ==> parses_as(#[trigger] items@[i], fs@[i]),
                            Filter::Or(fs) => es[0].0@ == key_or() && fs@.len() == items@.len()
                                && forall|i: int|
                                0 <= i < items@.len() ==> parses_as(#[trigger] items@[i], fs@[i]),
                            _ => false,
                        },
                        _ => false,
                    }
                } else {
                    match es[0].1 {
                        JsonValue::Object(ops) => field_ops_read_as(es[0].0, ops.entries@, f),
                        _ => f == Filter::Eq { field: es[0].0, value: es[0].1 },
                    }
                }
            } else {
                match f {
                    Filter::And(fs) => es.len() > 0 && fs@.len() == es.len() && forall|i: int|
                        0 <= i < es.len() ==> #[trigger] clause_reads_as(es[i].0, es[i].1, fs@[i]),
                    _ => false,
                }
            }
        },
        _ => false,
    }
}


/// What `parse_error` says, over the object's entries as `pairs()` gives
/// them: a document that is not an object, or an empty object, is an
/// unsupported expression; a lone `$and` / `$or` needs an array whose items
/// parse; a lone field clause errs only through its operator object; a
/// multi-key object errs with its first erring clause.
pub proof fn lemma_parse_error_unfold(v: JsonValue)
    ensures
        parse_error(v) == match v {
            JsonValue::Object(m) => {
                let es = m.pairs();
                if es.len() == 1 {
                    if es[0].0@ == key_and() {
                        match es[0].1 {
                            JsonValue::Array(items) => items_error(items@, items@.len() as int),
                            _ => Some(MetadataError::AndNotArray),
                        }
                    } else if es[0].0@ == key_or() {
                        match es[0].1 {
                            JsonValue::Array(items) => items_error(items@, items@.len() as int),
                            _ => Some(MetadataError::OrNotArray),
                        }
                    } else {
                        match es[0].1 {
                            JsonValue::Object(ops) => field_ops_error(es[0].0@, ops.pairs()),
                            _ => None,
                        }
                    }
                } else if es.len() > 0 {
                    clauses_error(es, es.len() as int)
                } else {
                    Some(MetadataError::UnsupportedExpression)
                }
            },
            _ => Some(MetadataError::UnsupportedExpression),
        },
{
    match v {
        JsonValue::Object(m) => {
            StrMap::lemma_pairs_entries(&m);
            let es = m.entries@;
            if es.len() == 1 {
                match es[0].1 {
                    JsonValue::Object(ops) => {
                        StrMap::lemma_pairs_entries(&ops);
                    },
                    _ => {},
                }
            }
        },
        _ => {},
    }
}

/// What `items_error` says: the first error among the first `n` items, in
/// order, each item's error being its `parse_error`.
pub proof fn lemma_items_error_unfold(items: Seq<JsonValue>, n: int)
    ensures
        items_error(items, n) == if n <= 0 || n > items.len() {
            None
        } else {
            match items_error(items, n - 1) {
                Some(e) => Some(e),
                None => parse_error(items[n - 1]),
            }
        },
{
}

/// What `parses_as` says, over the object's entries as `pairs()` gives
/// them: a lone `$and` / `$or` reads as the conjunction / disjunction of
/// what its items read as; a lone field clause reads as its operators or as
/// an equality; a multi-key object reads as the conjunction of its clauses.
pub proof fn lemma_parses_as_unfold(v: JsonValue, f: Filter)
    ensures
        parses_as(v, f) == match v {
            JsonValue::Object(m) => {
                let es = m.pairs();
                if es.len() == 1 {
                    if es[0].0@ == key_and() || es[0].0@ == key_or() {
                        match es[0].1 {
                            JsonValue::Array(items) => match f {
                                Filter::And(fs) => es[0].0@ == key_and() && fs@.len() == items@.len()
                                    && forall|i: int|
                                    0 <= i < items@.len() ==> parses_as(#[trigger] items@[i], fs@[i]),
                                Filter::Or(fs) => es[0].0@ == key_or() && fs@.len() == items@.len()
                                    && forall|i: int|
                                    0 <= i < items@.len() ==> parses_as(#[trigger] items@[i], fs@[i]),
                                _ => false,
                            },
                            _ => false,
                        }
                    } else {
                        match es[0].1 {
                            JsonValue::Object(ops) => field_ops_read_as(es[0].0, ops.pairs(), f),
                            _ => f == Filter::Eq { field: es[0].0, value: es[0].1 },
                        }
                    }
                } else {
                    match f {
                        Filter::And(fs) => es.len() > 0 && fs@.len() == es.len() && forall|i: int|
                            0 <= i < es.len() ==> #[trigger] clause_reads_as(es[i].0, es[i].1, fs@[i]),
                        _ => false,
                    }
                }
            },
            _ => false,
        },
{
    match v {
        JsonValue::Object(m) => {
            StrMap::lemma_pairs_entries(&m);
            let es = m.entries@;
            if es.len() == 1 {
                match es[0].1 {
                    JsonValue::Object(ops) => {
                        StrMap::lemma_pairs_entries(&ops);
                    },
                    _ => {},
                }
            }
        },
        _ => {},
    }
}

/// Once an error is found among the first `i` operator pairs, it is the
/// error of every longer prefix.
proof fn lemma_ops_error_stays(field: Seq<char>, es: Seq<(String, JsonValue)>, i: int, m: int)
    requires
        0 <= i <= m,
        ops_error(field, es, i) is Some,
    ensures
        ops_error(field, es, m) == ops_error(field, es, i),
    decreases m - i,
{
    if m > i {
        lemma_ops_error_stays(field, es, i, m - 1);
    }
}

/// Once an error is found among the first `i` clauses, it is the error of
/// every longer prefix.
proof fn lemma_clauses_error_stays(es: Seq<(String, JsonValue)>, i: int, m: int)
    requires
        0 <= i <= m,
        clauses_error(es, i) is Some,
    ensures
        clauses_error(es, m) == clauses_error(es, i),
    decreases m - i,
{
    if m > i {
        lemma_clauses_error_stays(es, i, m - 1);
    }
}

/// Once an error is found among the first `i` sub-filters, it is the error
/// of every longer prefix.
proof fn lemma_items_error_stays(items: Seq<JsonValue>, i: int, m: int)
    requires
        0 <= i <= m <= items.len(),
        items_error(items, i) is Some,
    ensures
        items_error(items, m) == items_error(items, i),
    decreases m - i,
{
    if m > i {
        lemma_items_error_stays(items, i, m - 1);
    }
}

// ---------------------------------------------------------------------------
// Parsing, executable.
// ---------------------------------------------------------------------------

/// The operator an operator key names, if any.
fn op_of_key(k: &str) -> (r: Option<FilterOp>)
    ensures
        r == op_for_key(k@),
{
    proof {
        reveal_strlit("$eq");
        reveal_strlit("$ne");
        reveal_strlit("$gt");
        reveal_strlit("$gte");
        reveal_strlit("$lt");
        reveal_strlit("$lte");
        reveal_strlit("$in");
        assert("$eq"@ =~= seq!['$', 'e', 'q']);
        assert("$ne"@ =~= seq!['$', 'n', 'e']);
        assert("$gt"@ =~= seq!['$', 'g', 't']);
        assert("$gte"@ =~= seq!['$', 'g', 't', 'e']);
        assert("$lt"@ =~= seq!['$', 'l', 't']);
        assert("$lte"@ =~= seq!['$', 'l', 't', 'e']);
        assert("$in"@ =~= seq!['$', 'i', 'n']);
    }
    if str_eq(k, "$eq") {
        Some(FilterOp::Eq)
    } else if str_eq(k, "$ne") {
        Some(FilterOp::Ne)
    } else if str_eq(k, "$gt") {
        Some(FilterOp::Gt)
    } else if str_eq(k, "$gte") {
        Some(FilterOp::Gte)
    } else if str_eq(k, "$lt") {
        Some(FilterOp::Lt)
    } else if str_eq(k, "$lte") {
        Some(FilterOp::Lte)
    } else if str_eq(k, "$in") {
        Some(FilterOp::In)
    } else {
        None
    }
}

fn is_and_key(k: &str) -> (r: bool)
    ensures
        r == (k@ == key_and()),
{
    proof {
        reveal_strlit("$and");
        assert("$and"@ =~= key_and());
    }
    str_eq(k, "$and")
}

fn is_or_key(k: &str) -> (r: bool)
    ensures
        r == (k@ == key_or()),
{
    proof {
        reveal_strlit("$or");
        assert("$or"@ =~= key_or());
    }
    str_eq(k, "$or")
}

fn starts_with_dollar(k: &str) -> (r: bool)
    ensures
        r == (k@.len() > 0 && k@[0] == '$'),
{
    let cs = str_chars(k);
    cs.len() > 0 && cs[0] == '$'
}

/// Reads one `op: value` pair under `field`.
fn parse_op(field: String, k: String, v: JsonValue) -> (r: Result<Filter, MetadataError>)
    ensures
        match r {
            Ok(g) => op_error(k, v) is None && op_reads_as(field, k, v, g),
            Err(e) => op_error(k, v) == Some(e),
        },
{
    match op_of_key(k.as_str()) {
        Some(FilterOp::Eq) => Ok(Filter::Eq { field, value: v }),
        Some(FilterOp::In) => {
            if let JsonValue::Array(_) = &v {
                Ok(Filter::Cmp { field, op: FilterOp::In, value: v })
            } else {
                Err(MetadataError::InValueNotArray)
            }
        },
        Some(op) => Ok(Filter::Cmp { field, op, value: v }),
        None => Err(MetadataError::UnsupportedOperator(k)),
    }
}

/// Reads an operator object under `field`: one comparison, or the
/// conjunction of all of them in order.
fn parse_field_ops(field: String, ops: StrMap<JsonValue>) -> (r: Result<Filter, MetadataError>)
    ensures
        match r {
            Ok(f) => field_ops_error(field@, ops.pairs()) is None && field_ops_read_as(
                field,
                ops.pairs(),
                f,
            ),
            Err(e) => field_ops_error(field@, ops.pairs()) == Some(e),
        },
{
    let ghost es = ops.pairs();
    let n = ops.len();
    let mut entries = ops.into_entries();
    if n == 1 {
        let (k, v) = entries.pop().unwrap();
        return parse_op(field, k, v);
    }
    let mut rest = reversed(entries);
    let mut parts: Vec<Filter> = Vec::new();
    let mut i: usize = 0;
    while i < n
        invariant
            n == es.len(),
            es == ops.pairs(),
            n != 1,
            i <= n,
            rest@.len() == n - i,
            forall|j: int| 0 <= j < rest@.len() ==> #[trigger] rest@[j] == es[n - 1 - j],
            parts@.len() == i,
            ops_error(field@, es, i as int) is None,
            forall|j: int| 0 <= j < i ==> #[trigger] op_reads_as(field, es[j].0, es[j].1, parts@[j]),
        decreases n - i,
    {
        let (k, v) = rest.pop().unwrap();
        assert(k == es[i as int].0 && v == es[i as int].1);
        if is_and_key(field.as_str()) {
            proof { lemma_ops_error_stays(field@, es, i + 1, n as int); }
            return Err(MetadataError::AndNotArray);
        }
        if is_or_key(field.as_str()) {
            proof { lemma_ops_error_stays(field@, es, i + 1, n as int); }
            return Err(MetadataError::OrNotArray);
        }
        let g = parse_op(field.clone(), k, v);
        match g {
            Ok(g) => {
                parts.push(g);
            },
            Err(e) => {
                proof { lemma_ops_error_stays(field@, es, i + 1, n as int); }
                return Err(e);
            },
        }
        i = i + 1;
    }
    Ok(Filter::And(parts))
}

/// Reads the sub-filters of `$and` / `$or`, stopping at the first error.
fn parse_items(items: Vec<JsonValue>) -> (r: Result<Vec<Filter>, MetadataError>)
    ensures
        match r {
            Ok(fs) => items_error(items@, items@.len() as int) is None && fs@.len() == items@.len()
                && forall|i: int| 0 <= i < items@.len() ==> parses_as(#[trigger] items@[i], fs@[i]),
            Err(e) => items_error(items@, items@.len() as int) == Some(e),
        },
    decreases items,
{
    let ghost all = items@;
    let n = items.len();
    let mut rest = reversed(items);
    let mut out: Vec<Filter> = Vec::new();
    let mut i: usize = 0;
    while i < n
        invariant
            n == all.len(),
            all == items@,
            i <= n,
            rest@.len() == n - i,
            forall|j: int| 0 <= j < rest@.len() ==> #[trigger] rest@[j] == all[n - 1 - j],
            out@.len() == i,
            items_error(all, i as int) is None,
            forall|j: int| 0 <= j < i ==> parses_as(#[trigger] all[j], out@[j]),
        decreases n - i,
    {
        let x = rest.pop().unwrap();
        assert(x == all[i as int]);
        proof {
            assert(decreases_to!(items => items@));
            assert(decreases_to!(items@ => items@[i as int]));
        }
        match from_json(x) {
            Ok(f) => {
                out.push(f);
            },
            Err(e) => {
                proof { lemma_items_error_stays(all, i + 1, n as int); }
                return Err(e);
            },
        }
        i = i + 1;
    }
    Ok(out)
}

impl Filter {
    /// Parses the JSON filter dialect.
    ///
    /// - Shorthand equality: `{"tag": "alpha"}`
    /// - Operators: `{"score": {"$gt": 1}}`, `{"tag": {"$ne": "x"}}`, `{"tag": {"$in": ["a","b"]}}`
    /// - Combinators: `{"$and": [...]}`, `{"$or": [...]}`
    /// - Several keys: the conjunction of one clause per key, in order.
    pub fn from_json(value: JsonValue) -> (r: Result<Filter, MetadataError>)
        ensures
            match r {
                Ok(f) => parse_error(value) is None && parses_as(value, f),
                Err(e) => parse_error(value) == Some(e),
            },
        decreases value,
    {
        from_json(value)
    }
}

fn from_json(value: JsonValue) -> (r: Result<Filter, MetadataError>)
    ensures
        match r {
            Ok(f) => parse_error(value) is None && parses_as(value, f),
            Err(e) => parse_error(value) == Some(e),
        },
    decreases value,
{
    let ghost v0 = value;
    match value {
        JsonValue::Object(m) => {
            proof { StrMap::lemma_pairs_entries(&m); }
            let ghost es = m.entries@;
            let n = m.len();
            let mut entries = m.into_entries();
            if n == 1 {
                let (k, v) = entries.pop().unwrap();
                assert(k == es[0].0 && v == es[0].1);
                if is_and_key(k.as_str()) {
                    match v {
                        JsonValue::Array(items) => {
                            proof {
                                assert(decreases_to!(v0 => m));
                                assert(decreases_to!(m.entries => m.entries[0]));
                            }
                            match parse_items(items) {
                                Ok(fs) => Ok(Filter::And(fs)),
                                Err(e) => Err(e),
                            }
                        },
                        _ => Err(MetadataError::AndNotArray),
                    }
                } else if is_or_key(k.as_str()) {
                    match v {
                        JsonValue::Array(items) => {
                            proof {
                                assert(decreases_to!(v0 => m));
                                assert(decreases_to!(m.entries => m.entries[0]));
                            }
                            match parse_items(items) {
                                Ok(fs) => Ok(Filter::Or(fs)),
                                Err(e) => Err(e),
                            }
                        },
                        _ => Err(MetadataError::OrNotArray),
                    }
                } else {
                    match v {
                        JsonValue::Object(ops) => {
                            proof { StrMap::lemma_pairs_entries(&ops); }
                            parse_field_ops(k, ops)
                        },
                        other => Ok(Filter::Eq { field: k, value: other }),
                    }
                }
            } else if n > 0 {
                let mut rest = reversed(entries);
                let mut parts: Vec<Filter> = Vec::new();
                let mut i: usize = 0;
                while i < n
                    invariant
                        n == es.len(),
                        value == JsonValue::Object(m),
                        es == m.entries@,
                        n > 1,
                        i <= n,
                        rest@.len() == n - i,
                        forall|j: int| 0 <= j < rest@.len() ==> #[trigger] rest@[j] == es[n - 1 - j],
                        parts@.len() == i,
                        clauses_error(es, i as int) is None,
                        forall|j: int|
                            0 <= j < i ==> #[trigger] clause_reads_as(es[j].0, es[j].1, parts@[j]),
                    decreases n - i,
                {
                    let (k, v) = rest.pop().unwrap();
                    assert(k == es[i as int].0 && v == es[i as int].1);
                    if starts_with_dollar(k.as_str()) {
                        proof { lemma_clauses_error_stays(es, i + 1, n as int); }
                        return Err(MetadataError::UnexpectedTopLevelOperator(k));
                    }
                    let g = match v {
                        JsonValue::Object(ops) => parse_field_ops(k, ops),
                        other => Ok(Filter::Eq { field: k, value: other }),
                    };
                    match g {
                        Ok(g) => {
                            parts.push(g);
                        },
                        Err(e) => {
                            proof { lemma_clauses_error_stays(es, i + 1, n as int); }
                            return Err(e);
                        },
                    }
                    i = i + 1;
                }
                Ok(Filter::And(parts))
            } else {
                Err(MetadataError::UnsupportedExpression)
            }
        },
        _ => Err(MetadataError::UnsupportedExpression),
    }
}

// ---------------------------------------------------------------------------
// Evaluation.
// ---------------------------------------------------------------------------

/// The value a document holds under `field`: only an object holds any.
pub open spec fn field_of(doc: JsonValue, field: Seq<char>) -> Option<JsonValue> {
    match doc {
        JsonValue::Object(m) => if m@.contains_key(field) {
            Some(m@[field])
        } else {
            None
        },
        _ => None,
    }
}

/// `a` and `b` agree before position `k`, and there `a` ends while `b`
/// goes on, or `a` has the smaller character.
pub open spec fn lt_at(a: Seq<char>, b: Seq<char>, k: int) -> bool {
    &&& 0 <= k <= a.len()
    &&& k <= b.len()
    &&& forall|j: int| 0 <= j < k ==> a[j] == b[j]
    &&& (k == a.len() && k < b.len()) || (k < a.len() && k < b.len() && (a[k] as u32) < (
        b[k] as u32))
}

/// `a` comes before `b` in the order of `str`: at the first position where
/// they differ the character of `a` is smaller, or `a` is a proper prefix of
/// `b`. (UTF-8 keeps code-point order, so this is the byte order too.)
pub open spec fn chars_lt(a: Seq<char>, b: Seq<char>) -> bool {
    exists|k: int| lt_at(a, b, k)
}

/// Whether an ordering operator holds, given whether the left side is below
/// and whether it is equal to the right side.
pub open spec fn ord_holds(lt: bool, eq: bool, op: FilterOp) -> bool {
    match op {
        FilterOp::Gt => !lt && !eq,
        FilterOp::Gte => !lt,
        FilterOp::Lt => lt,
        FilterOp::Lte => lt || eq,
        _ => false,
    }
}

/// An ordering comparison: numbers by their `f64` order, strings by `str`
/// order, anything else never.
pub open spec fn compares(actual: JsonValue, expected: JsonValue, op: FilterOp) -> bool {
    match (actual, expected) {
        (JsonValue::Number(a), JsonValue::Number(b)) => ord_holds(
            a.order_key < b.order_key,
            a.order_key == b.order_key,
            op,
        ),
        (JsonValue::String(a), JsonValue::String(b)) => ord_holds(chars_lt(a@, b@), a@ == b@, op),
        _ => false,
    }
}

/// Whether a comparison filter holds of the value a document has under
/// its field (if any).
pub open spec fn cmp_holds(actual: Option<JsonValue>, op: FilterOp, value: JsonValue) -> bool {
    match op {
        FilterOp::Eq => actual is Some && json_eq(actual->0, value, EqMode::Value),
        FilterOp::Ne => actual is None || !json_eq(actual->0, value, EqMode::Value),
        FilterOp::In => match value {
            JsonValue::Array(arr) => actual is Some && exists|i: int|
                0 <= i < arr@.len() && json_eq(#[trigger] arr@[i], actual->0, EqMode::Value),
            _ => false,
        },
        _ => actual is Some && compares(actual->0, value, op),
    }
}

/// Whether a filter holds of a metadata document.
pub open spec fn holds(f: Filter, doc: JsonValue) -> bool
    decreases f,
{
    match f {
        Filter::Eq { field, value } => match field_of(doc, field@) {
            Some(v) => json_eq(v, value, EqMode::Value),
            None => false,
        },
        Filter::Cmp { field, op, value } => cmp_holds(field_of(doc, field@), op, value),
        Filter::And(fs) => forall|i: int| 0 <= i < fs@.len() ==> holds(#[trigger] fs@[i], doc),
        Filter::Or(fs) => !forall|i: int| 0 <= i < fs@.len() ==> !holds(#[trigger] fs@[i], doc),
    }
}

/// A conjunction holds exactly when every one of its filters holds.
pub proof fn law_and_holds(fs: Vec<Filter>, doc: JsonValue)
    ensures
        holds(Filter::And(fs), doc) <==> forall|i: int| 0 <= i < fs@.len() ==> holds(#[trigger] fs@[i], doc),
{
    let f = Filter::And(fs);
    if holds(f, doc) {
        assert forall|i: int| 0 <= i < fs@.len() implies holds(#[trigger] fs@[i], doc) by {
            assert(decreases_to!(f => f->And_0));
            assert(decreases_to!(f->And_0 => fs@[i]));
        }
    }
    if forall|i: int| 0 <= i < fs@.len() ==> holds(#[trigger] fs@[i], doc) {
        assert forall|i: int| 0 <= i < fs@.len() implies decreases_to!(f => #[trigger] fs@[i]) by {
            assert(decreases_to!(f => f->And_0));
            assert(decreases_to!(f->And_0 => fs@[i]));
        }
        assert(holds(f, doc));
    }
}

/// A disjunction holds exactly when one of its filters holds.
pub proof fn law_or_holds(fs: Vec<Filter>, doc: JsonValue)
    ensures
        holds(Filter::Or(fs), doc) <==> exists|i: int| 0 <= i < fs@.len() && holds(#[trigger] fs@[i], doc),
{
    let f = Filter::Or(fs);
    assert forall|i: int| 0 <= i < fs@.len() implies decreases_to!(f => #[trigger] fs@[i]) by {
        assert(decreases_to!(f => f->Or_0));
        assert(decreases_to!(f->Or_0 => fs@[i]));
    }
    if holds(f, doc) {
        assert(!forall|i: int| 0 <= i < fs@.len() ==> !holds(#[trigger] fs@[i], doc));
    }
    if exists|i: int| 0 <= i < fs@.len() && holds(#[trigger] fs@[i], doc) {
        let i = choose|i: int| 0 <= i < fs@.len() && holds(#[trigger] fs@[i], doc);
        assert(decreases_to!(f => f->Or_0));
        assert(decreases_to!(f->Or_0 => fs@[i]));
        assert(!(forall|j: int| 0 <= j < fs@.len() ==> !holds(#[trigger] fs@[j], doc)));
        assert(holds(f, doc));
    }
}

/// `$ne` holds exactly when the equality does not, a missing field
/// included; `$eq` holds exactly when the equality does.
pub proof fn law_ne_eq_holds(field: String, value: JsonValue, doc: JsonValue)
    ensures
        holds(Filter::Cmp { field, op: FilterOp::Ne, value }, doc) == !holds(Filter::Eq { field, value }, doc),
        holds(Filter::Cmp { field, op: FilterOp::Eq, value }, doc) == holds(Filter::Eq { field, value }, doc),
{
}

/// A range comparison, or `$in`, never holds of a document that lacks the
/// field.
pub proof fn law_absent_field_fails(field: String, op: FilterOp, value: JsonValue, doc: JsonValue)
    requires
        field_of(doc, field@) is None,
        op != FilterOp::Ne,
    ensures
        !holds(Filter::Cmp { field, op, value }, doc),
{
}

/// Ordering filters on numbers follow the numbers' order: where the
/// document holds the number `a` under the field and the bound is `b`,
/// `$lt` holds exactly when `a` orders below `b`, `$lte` when below or
/// level with it, `$gt` when above, and `$gte` when above or level.
pub proof fn law_number_order_holds(field: String, a: JsonNumber, b: JsonNumber, doc: JsonValue)
    requires
        field_of(doc, field@) == Some(JsonValue::Number(a)),
    ensures
        holds(Filter::Cmp { field, op: FilterOp::Lt, value: JsonValue::Number(b) }, doc) <==> a.order_key
            < b.order_key,
        holds(Filter::Cmp { field, op: FilterOp::Lte, value: JsonValue::Number(b) }, doc) <==> a.order_key
            <= b.order_key,
        holds(Filter::Cmp { field, op: FilterOp::Gt, value: JsonValue::Number(b) }, doc) <==> a.order_key
            > b.order_key,
        holds(Filter::Cmp { field, op: FilterOp::Gte, value: JsonValue::Number(b) }, doc) <==> a.order_key
            >= b.order_key,
{
}

/// Ordering filters on strings: `$lte` holds exactly when `$lt` or the
/// equality does, `$gt` exactly when `$lte` does not, `$gte` exactly when
/// `$lt` does not; `$lt` holds when the document's string comes first in
/// `str` order, so a proper prefix of the bound, or a string with a smaller
/// character where they first differ, is below it.
pub proof fn law_string_order_holds(field: String, a: String, b: String, doc: JsonValue)
    requires
        field_of(doc, field@) == Some(JsonValue::String(a)),
    ensures
        holds(Filter::Cmp { field, op: FilterOp::Lt, value: JsonValue::String(b) }, doc) <==> chars_lt(a@, b@),
        holds(Filter::Cmp { field, op: FilterOp::Lte, value: JsonValue::String(b) }, doc) <==> (holds(
            Filter::Cmp { field, op: FilterOp::Lt, value: JsonValue::String(b) },
            doc,
        ) || holds(Filter::Eq { field, value: JsonValue::String(b) }, doc)),
        holds(Filter::Cmp { field, op: FilterOp::Gt, value: JsonValue::String(b) }, doc) <==> !holds(
            Filter::Cmp { field, op: FilterOp::Lte, value: JsonValue::String(b) },
            doc,
        ),
        holds(Filter::Cmp { field, op: FilterOp::Gte, value: JsonValue::String(b) }, doc) <==> !holds(
            Filter::Cmp { field, op: FilterOp::Lt, value: JsonValue::String(b) },
            doc,
        ),
        (a@.len() < b@.len() && a@ =~= b@.subrange(0, a@.len() as int)) ==> holds(
            Filter::Cmp { field, op: FilterOp::Lt, value: JsonValue::String(b) },
            doc,
        ),
        (a@.len() > 0 && b@.len() > 0 && (a@[0] as u32) < (b@[0] as u32)) ==> holds(
            Filter::Cmp { field, op: FilterOp::Lt, value: JsonValue::String(b) },
            doc,
        ),
        chars_lt(a@, b@) ==> !chars_lt(b@, a@) && a@ != b@,
{
    crate::json::lemma_json_eq_unfold(JsonValue::String(a), JsonValue::String(b), EqMode::Value);
    if a@.len() < b@.len() && a@ =~= b@.subrange(0, a@.len() as int) {
        assert(lt_at(a@, b@, a@.len() as int));
    }
    if a@.len() > 0 && b@.len() > 0 && (a@[0] as u32) < (b@[0] as u32) {
        assert(lt_at(a@, b@, 0));
    }
    if chars_lt(a@, b@) {
        let k = choose|k: int| lt_at(a@, b@, k);
        if a@ == b@ {
            assert(a@[k] == b@[k] || k == a@.len());
        }
        if chars_lt(b@, a@) {
            let m = choose|m: int| lt_at(b@, a@, m);
            if m < k {
                assert(a@[m] == b@[m]);
            } else if k < m {
                assert(b@[k] == a@[k]);
            }
        }
    }
}

/// An ordering filter never holds between a number and a string, nor when
/// either side is neither.
pub proof fn law_order_needs_same_kind(field: String, op: FilterOp, value: JsonValue, doc: JsonValue)
    requires
        op == FilterOp::Lt || op == FilterOp::Lte || op == FilterOp::Gt || op == FilterOp::Gte,
        field_of(doc, field@) matches Some(v) && !((v is Number && value is Number) || (v is String
            && value is String)),
    ensures
        !holds(Filter::Cmp { field, op, value }, doc),
{
}

/// The value a document holds under `field`.
fn lookup<'a>(doc: &'a JsonValue, field: &str) -> (r: Option<&'a JsonValue>)
    ensures
        match r {
            Some(v) => field_of(*doc, field@) == Some(*v),
            None => field_of(*doc, field@) is None,
        },
{
    match doc {
        JsonValue::Object(m) => m.get(field),
        _ => None,
    }
}

/// Whether `a` comes before `b` in `str` order.
fn str_less(a: &str, b: &str) -> (r: bool)
    ensures
        r == chars_lt(a@, b@),
{
    let ca = str_chars(a);
    let cb = str_chars(b);
    let mut i: usize = 0;
    while i < ca.len() && i < cb.len() && ca[i] == cb[i]
        invariant
            ca@ == a@,
            cb@ == b@,
            i <= ca@.len(),
            i <= cb@.len(),
            forall|j: int| 0 <= j < i ==> ca@[j] == cb@[j],
        decreases ca@.len() - i,
    {
        i = i + 1;
    }
    let r = if i < ca.len() && i < cb.len() {
        (ca[i] as u32) < (cb[i] as u32)
    } else {
        i == ca.len() && i < cb.len()
    };
    proof {
        if r {
            assert(lt_at(a@, b@, i as int));
        } else {
            assert forall|k: int| !lt_at(a@, b@, k) by {
                if lt_at(a@, b@, k) {
                    if k < i {
                        assert(a@[k] == b@[k]);
                    } else if k > i {
                        assert(a@[i as int] == b@[i as int]);
                    }
                }
            }
        }
    }
    r
}

/// Whether an ordering comparison holds.
fn compare_ordered(actual: &JsonValue, expected: &JsonValue, op: FilterOp) -> (r: bool)
    ensures
        r == compares(*actual, *expected, op),
{
    let (lt, eq) = match (actual, expected) {
        (JsonValue::Number(a), JsonValue::Number(b)) => (
            a.order_key < b.order_key,
            a.order_key == b.order_key,
        ),
        (JsonValue::String(a), JsonValue::String(b)) => (
            str_less(a.as_str(), b.as_str()),
            str_eq(a.as_str(), b.as_str()),
        ),
        _ => {
            return false;
        },
    };
    match op {
        FilterOp::Gt => !lt && !eq,
        FilterOp::Gte => !lt,
        FilterOp::Lt => lt,
        FilterOp::Lte => lt || eq,
        _ => false,
    }
}

/// Whether `v` equals some element of `arr`.
fn any_equal(arr: &Vec<JsonValue>, v: &JsonValue) -> (r: bool)
    ensures
        r == exists|i: int| 0 <= i < arr@.len() && json_eq(#[trigger] arr@[i], *v, EqMode::Value),
{
    let mut i: usize = 0;
    while i < arr.len()
        invariant
            i <= arr@.len(),
            forall|j: int| 0 <= j < i ==> !json_eq(#[trigger] arr@[j], *v, EqMode::Value),
        decreases arr@.len() - i,
    {
        if json_equal(&arr[i], v, EqMode::Value) {
            return true;
        }
        i = i + 1;
    }
    false
}

impl Filter {
    /// Whether this filter holds of a metadata document.
    #[verifier::loop_isolation(false)]
    pub fn matches(&self, metadata: &JsonValue) -> (r: bool)
        ensures
            r == holds(*self, *metadata),
        decreases *self,
    {
        match self {
            Filter::Eq { field, value } => match lookup(metadata, field.as_str()) {
                Some(v) => json_equal(v, value, EqMode::Value),
                None => false,
            },
            Filter::Cmp { field, op, value } => {
                let actual = lookup(metadata, field.as_str());
                match op {
                    FilterOp::Eq => match actual {
                        Some(v) => json_equal(v, value, EqMode::Value),
                        None => false,
                    },
                    FilterOp::Ne => match actual {
                        Some(v) => !json_equal(v, value, EqMode::Value),
                        None => true,
                    },
                    FilterOp::In => match value {
                        JsonValue::Array(arr) => match actual {
                            Some(v) => any_equal(arr, v),
                            None => false,
                        },
                        _ => false,
                    },
                    _ => match actual {
                        Some(v) => compare_ordered(v, value, *op),
                        None => false,
                    },
                }
            },
            Filter::And(items) => {
                let mut i: usize = 0;
                while i < items.len()
                    invariant
                        *self == Filter::And(*items),
                        i <= items@.len(),
                        forall|j: int| 0 <= j < i ==> holds(#[trigger] items@[j], *metadata),
                    decreases items@.len() - i,
                {
                    proof {
                        assert(decreases_to!(*self => *items));
                        assert(decreases_to!(*items => items@[i as int]));
                    }
                    if !items[i].matches(metadata) {
                        return false;
                    }
                    i = i + 1;
                }
                true
            },
            Filter::Or(items) => {
                let mut i: usize = 0;
                while i < items.len()
                    invariant
                        *self == Filter::Or(*items),
                        i <= items@.len(),
                        forall|j: int| 0 <= j < i ==> !holds(#[trigger] items@[j], *metadata),
                    decreases items@.len() - i,
                {
                    proof {
                        assert(decreases_to!(*self => *items));
                        assert(decreases_to!(*items => items@[i as int]));
                    }
                    if items[i].matches(metadata) {
                        return true;
                    }
                    i = i + 1;
                }
                false
            },
        }
    }
}

// ---------------------------------------------------------------------------
// Writing back to JSON.
// ---------------------------------------------------------------------------

/// `v` is an object with the one entry `k: x`.
pub open spec fn single_entry(v: JsonValue, k: String, x: JsonValue) -> bool {
    match v {
        JsonValue::Object(m) => m.pairs().len() == 1 && m.pairs()[0].0 == k && m.pairs()[0].1 == x,
        _ => false,
    }
}

/// `v` is an object with one entry, whose key reads `k` and whose value is `x`.
pub open spec fn keyed_entry(v: JsonValue, k: Seq<char>, x: JsonValue) -> bool {
    match v {
        JsonValue::Object(m) => m.pairs().len() == 1 && m.pairs()[0].0@ == k && m.pairs()[0].1 == x,
        _ => false,
    }
}

/// `v` is `{key: [x_0, x_1, ...]}` with each `x_i` the rendering of `fs[i]`.
pub open spec fn renders_list(v: JsonValue, key: Seq<char>, fs: Seq<Filter>) -> bool
    decreases fs,
{
    match v {
        JsonValue::Object(m) => m.pairs().len() == 1 && m.pairs()[0].0@ == key && match m.pairs()[0].1 {
            JsonValue::Array(xs) => xs@.len() == fs.len() && forall|i: int|
                0 <= i < fs.len() ==> renders_as(#[trigger] fs[i], xs@[i]),
            _ => false,
        },
        _ => false,
    }
}

/// `v` is the JSON form of `f`: `{field: value}`, `{field: {"$op": value}}`,
/// `{"$and": [...]}` or `{"$or": [...]}`.
pub open spec fn renders_as(f: Filter, v: JsonValue) -> bool
    decreases f,
{
    match f {
        Filter::Eq { field, value } => single_entry(v, field, value),
        Filter::Cmp { field, op, value } => match v {
            JsonValue::Object(m) => m.pairs().len() == 1 && m.pairs()[0].0 == field && keyed_entry(
                m.pairs()[0].1,
                key_for_op(op),
                value,
            ),
            _ => false,
        },
        Filter::And(fs) => renders_list(v, key_and(), fs@),
        Filter::Or(fs) => renders_list(v, key_or(), fs@),
    }
}

/// The object with the one entry `k: x`.
fn single(k: String, x: JsonValue) -> (r: JsonValue)
    ensures
        single_entry(r, k, x),
        keyed_entry(r, k@, x),
{
    let mut entries: Vec<(String, JsonValue)> = Vec::new();
    entries.push((k, x));
    let m = StrMap::from_entries(entries);
    JsonValue::Object(m)
}

/// The key that names an operator.
fn op_key(op: FilterOp) -> (r: String)
    ensures
        r@ == key_for_op(op),
{
    proof {
        reveal_strlit("$eq");
        reveal_strlit("$ne");
        reveal_strlit("$gt");
        reveal_strlit("$gte");
        reveal_strlit("$lt");
        reveal_strlit("$lte");
        reveal_strlit("$in");
    }
    let k = match op {
        FilterOp::Eq => "$eq",
        FilterOp::Ne => "$ne",
        FilterOp::Gt => "$gt",
        FilterOp::Gte => "$gte",
        FilterOp::Lt => "$lt",
        FilterOp::Lte => "$lte",
        FilterOp::In => "$in",
    };
    let r = k.to_owned();
    assert(r@ =~= key_for_op(op));
    r
}

impl Filter {
    /// Writes the filter back in the JSON filter dialect (as sent to remote
    /// shards).
    pub fn to_json(self) -> (r: JsonValue)
        ensures
            renders_as(self, r),
        decreases self,
    {
        let ghost f0 = self;
        match self {
            Filter::Eq { field, value } => single(field, value),
            Filter::Cmp { field, op, value } => {
                let k = op_key(op);
                single(field, single(k, value))
            },
            Filter::And(parts) => {
                proof { reveal_strlit("$and"); }
                let xs = render_all(parts);
                let k = "$and".to_owned();
                assert(k@ =~= key_and());
                single(k, JsonValue::Array(xs))
            },
            Filter::Or(parts) => {
                proof { reveal_strlit("$or"); }
                let xs = render_all(parts);
                let k = "$or".to_owned();
                assert(k@ =~= key_or());
                single(k, JsonValue::Array(xs))
            },
        }
    }
}

/// Renders each filter, in order.
fn render_all(parts: Vec<Filter>) -> (r: Vec<JsonValue>)
    ensures
        r@.len() == parts@.len(),
        forall|i: int| 0 <= i < parts@.len() ==> renders_as(#[trigger] parts@[i], r@[i]),
    decreases parts,
{
    let ghost all = parts@;
    let n = parts.len();
    let mut rest = reversed(parts);
    let mut out: Vec<JsonValue> = Vec::new();
    let mut i: usize = 0;
    while i < n
        invariant
            n == all.len(),
            all == parts@,
            i <= n,
            rest@.len() == n - i,
            forall|j: int| 0 <= j < rest@.len() ==> #[trigger] rest@[j] == all[n - 1 - j],
            out@.len() == i,
            forall|j: int| 0 <= j < i ==> renders_as(#[trigger] all[j], out@[j]),
        decreases n - i,
    {
        let p = rest.pop().unwrap();
        assert(p == all[i as int]);
        proof {
            assert(decreases_to!(parts => parts@));
            assert(decreases_to!(parts@ => parts@[i as int]));
        }
        out.push(p.to_json());
        i = i + 1;
    }
    out
}

/// A filter that its JSON form reads back as: fields other than `$and` and
/// `$or`, no `Cmp` with `$eq` (that reads as `Eq`), no `Eq` against an object
/// (that reads as operators), and `$in` against an array.
pub open spec fn round_trips(f: Filter) -> bool
    decreases f,
{
    match f {
        Filter::Eq { field, value } => field@ != key_and() && field@ != key_or() && !(
        value is Object),
        Filter::Cmp { field, op, value } => field@ != key_and() && field@ != key_or() && op
            != FilterOp::Eq && (op == FilterOp::In ==> value is Array),
        Filter::And(fs) => forall|i: int| 0 <= i < fs@.len() ==> round_trips(#[trigger] fs@[i]),
        Filter::Or(fs) => forall|i: int| 0 <= i < fs@.len() ==> round_trips(#[trigger] fs@[i]),
    }
}

proof fn lemma_op_key_reads_back(op: FilterOp)
    ensures
        op_for_key(key_for_op(op)) == Some(op),
{
    let k = key_for_op(op);
    assert(seq!['$', 'e', 'q'][1] == 'e');
    assert(seq!['$', 'n', 'e'][1] == 'n');
    assert(seq!['$', 'g', 't'][1] == 'g');
    assert(seq!['$', 'g', 't', 'e'][1] == 'g');
    assert(seq!['$', 'l', 't'][1] == 'l');
    assert(seq!['$', 'l', 't', 'e'][1] == 'l');
    assert(seq!['$', 'i', 'n'][1] == 'i');
    assert(seq!['$', 'g', 't'].len() == 3);
    assert(seq!['$', 'g', 't', 'e'].len() == 4);
    assert(seq!['$', 'l', 't'].len() == 3);
    assert(seq!['$', 'l', 't', 'e'].len() == 4);
}

proof fn lemma_items_read_back(xs: Seq<JsonValue>, n: int)
    requires
        0 <= n <= xs.len(),
        forall|i: int| 0 <= i < n ==> parse_error(#[trigger] xs[i]) is None,
    ensures
        items_error(xs, n) is None,
    decreases n,
{
    if n > 0 {
        lemma_items_read_back(xs, n - 1);
    }
}

/// What `to_json` writes, `from_json` reads back as the same filter, for
/// every filter that `round_trips` admits.
pub proof fn law_json_round_trip(f: Filter, v: JsonValue)
    requires
        round_trips(f),
        renders_as(f, v),
    ensures
        parse_error(v) is None,
        parses_as(v, f),
    decreases f,
{
    match f {
        Filter::Eq { field, value } => {
            if let JsonValue::Object(m) = v {
                StrMap::lemma_pairs_entries(&m);
            }
        },
        Filter::Cmp { field, op, value } => {
            if let JsonValue::Object(m) = v {
                StrMap::lemma_pairs_entries(&m);
                if let JsonValue::Object(inner) = m.pairs()[0].1 {
                    StrMap::lemma_pairs_entries(&inner);
                }
            }
            lemma_op_key_reads_back(op);
        },
        Filter::And(fs) => {
            if let JsonValue::Object(m) = v {
                StrMap::lemma_pairs_entries(&m);
                if let JsonValue::Array(xs) = m.pairs()[0].1 {
                    assert forall|i: int| 0 <= i < xs@.len() implies parse_error(#[trigger] xs@[i])
                        is None && parses_as(xs@[i], fs@[i]) by {
                        assert(decreases_to!(f => fs));
                        assert(decreases_to!(fs => fs@[i]));
                        law_json_round_trip(fs@[i], xs@[i]);
                    }
                    lemma_items_read_back(xs@, xs@.len() as int);
                }
            }
        },
        Filter::Or(fs) => {
            if let JsonValue::Object(m) = v {
                StrMap::lemma_pairs_entries(&m);
                if let JsonValue::Array(xs) = m.pairs()[0].1 {
                    assert forall|i: int| 0 <= i < xs@.len() implies parse_error(#[trigger] xs@[i])
                        is None && parses_as(xs@[i], fs@[i]) by {
                        assert(decreases_to!(f => fs));
                        assert(decreases_to!(fs => fs@[i]));
                        law_json_round_trip(fs@[i], xs@[i]);
                    }
                    lemma_items_read_back(xs@, xs@.len() as int);
                }
            }
        },
    }
}

/// No equality anywhere in the filter compares against an object (the
/// writer puts such a value where the reader sees operators).
pub open spec fn no_object_eq(f: Filter) -> bool
    decreases f,
{
    match f {
        Filter::Eq { field, value } => !(value is Object),
        Filter::Cmp { .. } => true,
        Filter::And(fs) => forall|i: int| 0 <= i < fs@.len() ==> no_object_eq(#[trigger] fs@[i]),
        Filter::Or(fs) => forall|i: int| 0 <= i < fs@.len() ==> no_object_eq(#[trigger] fs@[i]),
    }
}

proof fn lemma_items_ok(xs: Seq<JsonValue>, n: int)
    requires
        0 <= n <= xs.len(),
        items_error(xs, n) is None,
    ensures
        forall|i: int| 0 <= i < n ==> parse_error(#[trigger] xs[i]) is None,
    decreases n,
{
    if n > 0 {
        lemma_items_ok(xs, n - 1);
    }
}

proof fn lemma_clauses_ok(es: Seq<(String, JsonValue)>, n: int)
    requires
        0 <= n <= es.len(),
        clauses_error(es, n) is None,
    ensures
        forall|i: int| 0 <= i < n ==> clause_error(#[trigger] es[i].0, es[i].1) is None,
    decreases n,
{
    if n > 0 {
        lemma_clauses_ok(es, n - 1);
    }
}

proof fn lemma_ops_ok(field: Seq<char>, es: Seq<(String, JsonValue)>, n: int)
    requires
        0 < n <= es.len(),
        ops_error(field, es, n) is None,
    ensures
        field != key_and() && field != key_or(),
        forall|i: int| 0 <= i < n ==> op_error(#[trigger] es[i].0, es[i].1) is None,
    decreases n,
{
    if n > 1 {
        lemma_ops_ok(field, es, n - 1);
    }
}

/// What one operator pair reads as round-trips.
proof fn lemma_op_round_trips(field: String, k: String, val: JsonValue, g: Filter)
    requires
        field@ != key_and() && field@ != key_or(),
        op_error(k, val) is None,
        op_reads_as(field, k, val, g),
        no_object_eq(g),
    ensures
        round_trips(g),
{
}

/// What an operator object reads as round-trips.
proof fn lemma_field_ops_round_trip(field: String, es: Seq<(String, JsonValue)>, g: Filter)
    requires
        field@ != key_and() && field@ != key_or(),
        field_ops_error(field@, es) is None,
        field_ops_read_as(field, es, g),
        no_object_eq(g),
    ensures
        round_trips(g),
    decreases g,
{
    if es.len() == 1 {
        lemma_op_round_trips(field, es[0].0, es[0].1, g);
    } else {
        match g {
            Filter::And(gs) => {
                if es.len() > 0 {
                    lemma_ops_ok(field@, es, es.len() as int);
                }
                assert forall|i: int| 0 <= i < gs@.len() implies round_trips(#[trigger] gs@[i]) by {
                    assert(decreases_to!(g => gs));
                    assert(decreases_to!(gs => gs@[i]));
                    assert(op_reads_as(field, es[i].0, es[i].1, gs@[i]));
                    assert(no_object_eq(gs@[i]));
                    lemma_op_round_trips(field, es[i].0, es[i].1, gs@[i]);
                }
            },
            _ => {},
        }
    }
}

/// Every filter that parsing gives round-trips, unless it holds an equality
/// against an object.
pub proof fn lemma_parsed_round_trips(v: JsonValue, f: Filter)
    requires
        parse_error(v) is None,
        parses_as(v, f),
        no_object_eq(f),
    ensures
        round_trips(f),
    decreases f,
{
    match v {
        JsonValue::Object(m) => {
            StrMap::lemma_pairs_entries(&m);
            let es = m.entries@;
            if es.len() == 1 {
                if es[0].0@ == key_and() || es[0].0@ == key_or() {
                    match es[0].1 {
                        JsonValue::Array(items) => {
                            lemma_items_ok(items@, items@.len() as int);
                            match f {
                                Filter::And(fs) => {
                                    assert forall|i: int| 0 <= i < fs@.len() implies round_trips(#[trigger] fs@[i]) by {
                                        assert(decreases_to!(f => fs));
                                        assert(decreases_to!(fs => fs@[i]));
                                        assert(parses_as(items@[i], fs@[i]));
                                        assert(no_object_eq(fs@[i]));
                                        lemma_parsed_round_trips(items@[i], fs@[i]);
                                    }
                                },
                                Filter::Or(fs) => {
                                    assert forall|i: int| 0 <= i < fs@.len() implies round_trips(#[trigger] fs@[i]) by {
                                        assert(decreases_to!(f => fs));
                                        assert(decreases_to!(fs => fs@[i]));
                                        assert(parses_as(items@[i], fs@[i]));
                                        assert(no_object_eq(fs@[i]));
                                        lemma_parsed_round_trips(items@[i], fs@[i]);
                                    }
                                },
                                _ => {},
                            }
                        },
                        _ => {},
                    }
                } else {
                    match es[0].1 {
                        JsonValue::Object(ops) => {
                            StrMap::lemma_pairs_entries(&ops);
                            lemma_field_ops_round_trip(es[0].0, ops.pairs(), f);
                        },
                        _ => {},
                    }
                }
            } else {
                match f {
                    Filter::And(fs) => {
                        lemma_clauses_ok(es, es.len() as int);
                        assert forall|i: int| 0 <= i < fs@.len() implies round_trips(#[trigger] fs@[i]) by {
                            assert(decreases_to!(f => fs));
                            assert(decreases_to!(fs => fs@[i]));
                            assert(clause_reads_as(es[i].0, es[i].1, fs@[i]));
                            assert(clause_error(es[i].0, es[i].1) is None);
                            assert(no_object_eq(fs@[i]));
                            let k = es[i].0;
                            assert(k@ != key_and()) by {
                                if k@ == key_and() {
                                    assert(k@[0] == '$');
                                }
                            }
                            assert(k@ != key_or()) by {
                                if k@ == key_or() {
                                    assert(k@[0] == '$');
                                }
                            }
                            match es[i].1 {
                                JsonValue::Object(ops) => {
                                    lemma_field_ops_round_trip(k, ops.pairs(), fs@[i]);
                                },
                                _ => {},
                            }
                        }
                    },
                    _ => {},
                }
            }
        },
        _ => {},
    }
}

/// What `from_json` gives, `to_json` writes so that `from_json` reads it
/// back as the same filter, unless the filter holds an equality against an
/// object.
pub proof fn law_parsed_filter_round_trip(v: JsonValue, f: Filter, w: JsonValue)
    requires
        parse_error(v) is None,
        parses_as(v, f),
        no_object_eq(f),
        renders_as(f, w),
    ensures
        parse_error(w) is None,
        parses_as(w, f),
{
    lemma_parsed_round_trips(v, f);
    law_json_round_trip(f, w);
}

/// Two filters of the same shape over the same fields, operators and values.
pub open spec fn same_filter(f: Filter, g: Filter) -> bool
    decreases f,
{
    match f {
        Filter::Eq { field: a, value: x } => match g {
            Filter::Eq { field: b, value: y } => a@ == b@ && x == y,
            _ => false,
        },
        Filter::Cmp { field: a, op: p, value: x } => match g {
            Filter::Cmp { field: b, op: q, value: y } => a@ == b@ && p == q && x == y,
            _ => false,
        },
        Filter::And(fs) => match g {
            Filter::And(gs) => fs@.len() == gs@.len() && forall|i: int|
                0 <= i < fs@.len() ==> same_filter(#[trigger] fs@[i], gs@[i]),
            _ => false,
        },
        Filter::Or(fs) => match g {
            Filter::Or(gs) => fs@.len() == gs@.len() && forall|i: int|
                0 <= i < fs@.len() ==> same_filter(#[trigger] fs@[i], gs@[i]),
            _ => false,
        },
    }
}

proof fn lemma_field_ops_unique(field: String, es: Seq<(String, JsonValue)>, f: Filter, g: Filter)
    requires
        field_ops_read_as(field, es, f),
        field_ops_read_as(field, es, g),
    ensures
        same_filter(f, g),
{
    if es.len() != 1 {
        if let Filter::And(fs) = f {
            if let Filter::And(gs) = g {
                assert forall|i: int| 0 <= i < fs@.len() implies same_filter(#[trigger] fs@[i], gs@[i]) by {
                    assert(op_reads_as(field, es[i].0, es[i].1, fs@[i]));
                    assert(op_reads_as(field, es[i].0, es[i].1, gs@[i]));
                }
            }
        }
    }
}

/// A document reads as one filter only: two readings of it are the same
/// filter.
pub proof fn law_parse_unique(v: JsonValue, f: Filter, g: Filter)
    requires
        parses_as(v, f),
        parses_as(v, g),
    ensures
        same_filter(f, g),
    decreases v,
{
    if let JsonValue::Object(m) = v {
        let es = m.entries@;
        if es.len() == 1 {
            if es[0].0@ == key_and() || es[0].0@ == key_or() {
                if let JsonValue::Array(items) = es[0].1 {
                    assert(decreases_to!(v => m));
                    assert(decreases_to!(m.entries => m.entries[0]));
                    match (f, g) {
                        (Filter::And(fs), Filter::And(gs)) => {
                            assert forall|i: int| 0 <= i < fs@.len() implies same_filter(#[trigger] fs@[i], gs@[i]) by {
                                assert(decreases_to!(items => items@[i]));
                                law_parse_unique(items@[i], fs@[i], gs@[i]);
                            }
                        },
                        (Filter::Or(fs), Filter::Or(gs)) => {
                            assert forall|i: int| 0 <= i < fs@.len() implies same_filter(#[trigger] fs@[i], gs@[i]) by {
                                assert(decreases_to!(items => items@[i]));
                                law_parse_unique(items@[i], fs@[i], gs@[i]);
                            }
                        },
                        _ => {},
                    }
                }
            } else {
                if let JsonValue::Object(ops) = es[0].1 {
                    lemma_field_ops_unique(es[0].0, ops.entries@, f, g);
                }
            }
        } else {
            if let Filter::And(fs) = f {
                if let Filter::And(gs) = g {
                    assert forall|i: int| 0 <= i < fs@.len() implies same_filter(#[trigger] fs@[i], gs@[i]) by {
                        assert(clause_reads_as(es[i].0, es[i].1, fs@[i]));
                        assert(clause_reads_as(es[i].0, es[i].1, gs@[i]));
                        if let JsonValue::Object(ops) = es[i].1 {
                            lemma_field_ops_unique(es[i].0, ops.pairs(), fs@[i], gs@[i]);
                        }
                    }
                }
            }
        }
    }
}

} // verus!
