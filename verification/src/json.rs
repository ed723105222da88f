//! The JSON documents that metadata and filters are made of.

use vstd::prelude::*;
use crate::strmap::{key_pos, keys_distinct, lemma_key_pos, StrMap};
use crate::text::{decimal, lemma_decimal_roundtrip, push_char, push_decimal, str_chars};

verus! {

/// How a JSON number is held: a non-negative integer, a negative integer,
/// or a float given by its shortest decimal text.
#[derive(Debug)]
pub enum NumberRepr {
    PosInt(u64),
    NegInt(i64),
    Float(String),
}

/// A JSON number together with `order_key`, an unsigned integer that orders
/// numbers as their `f64` values do, and is equal for equal `f64` values.
#[derive(Debug)]
pub struct JsonNumber {
    pub repr: NumberRepr,
    pub order_key: u64,
}

/// A JSON document.
#[derive(Debug)]
pub enum JsonValue {
    Null,
    Bool(bool),
    Number(JsonNumber),
    String(String),
    Array(Vec<JsonValue>),
    Object(StrMap<JsonValue>),
}

/// Which notion of equality two documents are compared under.
#[derive(Clone, Copy, PartialEq, Eq, Structural)]
pub enum EqMode {
    /// As JSON values: floats equal as `f64`.
    Value,
    /// As index keys: floats equal when their decimal texts are.
    Key,
    /// As representations: floats equal in text and in `order_key`.
    Same,
}

/// Equality of numbers. Integers compare by value; floats by `order_key`,
/// by text, or by both, as `mode` says.
pub open spec fn number_eq(a: JsonNumber, b: JsonNumber, mode: EqMode) -> bool {
    match (a.repr, b.repr) {
        (NumberRepr::PosInt(x), NumberRepr::PosInt(y)) => x == y,
        (NumberRepr::NegInt(x), NumberRepr::NegInt(y)) => x == y,
        (NumberRepr::Float(x), NumberRepr::Float(y)) => match mode {
            EqMode::Value => a.order_key == b.order_key,
            EqMode::Key => x@ == y@,
            EqMode::Same => x@ == y@ && a.order_key == b.order_key,
        },
        _ => false,
    }
}

/// Equality of JSON documents: same kind, equal scalars, arrays equal
/// element by element, objects with the same keys and equal values.
pub closed spec fn json_eq(a: JsonValue, b: JsonValue, mode: EqMode) -> bool
    decreases a,
{
    match a {
        JsonValue::Null => b is Null,
        JsonValue::Bool(x) => match b {
            JsonValue::Bool(y) => x == y,
            _ => false,
        },
        JsonValue::Number(x) => match b {
            JsonValue::Number(y) => number_eq(x, y, mode),
            _ => false,
        },
        JsonValue::String(x) => match b {
            JsonValue::String(y) => x@ == y@,
            _ => false,
        },
        JsonValue::Array(xs) => match b {
            JsonValue::Array(ys) => xs@.len() == ys@.len() && forall|i: int|
                0 <= i < xs@.len() ==> json_eq(#[trigger] xs@[i], ys@[i], mode),
            _ => false,
        },
        JsonValue::Object(m) => match b {
            JsonValue::Object(n) => m.entries@.len() == n.entries@.len() && forall|i: int|
                0 <= i < m.entries@.len() ==> key_pos(n.entries@, #[trigger] m.entries@[i].0@) >= 0
                    && json_eq(
                    m.entries@[i].1,
                    n.entries@[key_pos(n.entries@, m.entries@[i].0@)].1,
                    mode,
                ),
            _ => false,
        },
    }
}

/// What `json_eq` says, stated over the maps' entries as `pairs()` gives
/// them: same kind, equal scalars (numbers by `number_eq`), arrays of equal
/// length and equal elements, objects with as many members, each of whose
/// keys the other holds with an equal value.
pub proof fn lemma_json_eq_unfold(a: JsonValue, b: JsonValue, mode: EqMode)
    ensures
        json_eq(a, b, mode) == match a {
            JsonValue::Null => b is Null,
            JsonValue::Bool(x) => match b {
                JsonValue::Bool(y) => x == y,
                _ => false,
            },
            JsonValue::Number(x) => match b {
                JsonValue::Number(y) => number_eq(x, y, mode),
                _ => false,
            },
            JsonValue::String(x) => match b {
                JsonValue::String(y) => x@ == y@,
                _ => false,
            },
            JsonValue::Array(xs) => match b {
                JsonValue::Array(ys) => xs@.len() == ys@.len() && forall|i: int|
                    0 <= i < xs@.len() ==> json_eq(#[trigger] xs@[i], ys@[i], mode),
                _ => false,
            },
            JsonValue::Object(m) => match b {
                JsonValue::Object(n) => m.pairs().len() == n.pairs().len() && forall|i: int|
                    0 <= i < m.pairs().len() ==> key_pos(n.pairs(), #[trigger] m.pairs()[i].0@) >= 0
                        && json_eq(
                        m.pairs()[i].1,
                        n.pairs()[key_pos(n.pairs(), m.pairs()[i].0@)].1,
                        mode,
                    ),
                _ => false,
            },
        },
{
    match a {
        JsonValue::Object(m) => {
            StrMap::lemma_pairs_entries(&m);
            match b {
                JsonValue::Object(n) => {
                    StrMap::lemma_pairs_entries(&n);
                },
                _ => {},
            }
        },
        _ => {},
    }
}

/// Lower-case hexadecimal digit.
pub open spec fn hex_char(d: nat) -> char {
    if d < 10 {
        crate::text::digit_char(d)
    } else if d == 10 {
        'a'
    } else if d == 11 {
        'b'
    } else if d == 12 {
        'c'
    } else if d == 13 {
        'd'
    } else if d == 14 {
        'e'
    } else {
        'f'
    }
}

/// How one character of a string is written inside JSON quotes: quote,
/// backslash and control characters escaped, the rest as is.
pub open spec fn escape_char(c: char) -> Seq<char> {
    if c == '"' {
        seq!['\\', '"']
    } else if c == '\\' {
        seq!['\\', '\\']
    } else if c == '\n' {
        seq!['\\', 'n']
    } else if c == '\r' {
        seq!['\\', 'r']
    } else if c == '\t' {
        seq!['\\', 't']
    } else if c == '\u{8}' {
        seq!['\\', 'b']
    } else if c == '\u{c}' {
        seq!['\\', 'f']
    } else if (c as nat) < 32 {
        seq!['\\', 'u', '0', '0', hex_char((c as nat) / 16), hex_char((c as nat) % 16)]
    } else {
        seq![c]
    }
}

pub open spec fn escape_str(s: Seq<char>) -> Seq<char>
    decreases s.len(),
{
    if s.len() == 0 {
        Seq::empty()
    } else {
        escape_str(s.drop_last()) + escape_char(s.last())
    }
}

/// A string as a JSON string literal.
pub open spec fn string_text(s: Seq<char>) -> Seq<char> {
    seq!['"'] + escape_str(s) + seq!['"']
}

/// A number as JSON text: integers in decimal, floats by their text.
pub open spec fn number_text(n: JsonNumber) -> Seq<char> {
    match n.repr {
        NumberRepr::PosInt(x) => decimal(x as nat),
        NumberRepr::NegInt(x) => seq!['-'] + decimal((if x < 0 { -(x as int) } else { x as int }) as nat),
        NumberRepr::Float(t) => t@,
    }
}

/// Compact JSON text of a document, members and elements in the order held.
pub closed spec fn json_text(v: JsonValue) -> Seq<char>
    decreases v,
{
    match v {
        JsonValue::Null => seq!['n', 'u', 'l', 'l'],
        JsonValue::Bool(b) => if b {
            seq!['t', 'r', 'u', 'e']
        } else {
            seq!['f', 'a', 'l', 's', 'e']
        },
        JsonValue::Number(n) => number_text(n),
        JsonValue::String(s) => string_text(s@),
        JsonValue::Array(xs) => seq!['['] + elements_text(xs@, xs@.len() as int) + seq![']'],
        JsonValue::Object(m) => seq!['{'] + members_text(m.entries@, m.entries@.len() as int) + seq!['}'],
    }
}

/// The first `n` elements, comma-separated.
pub closed spec fn elements_text(xs: Seq<JsonValue>, n: int) -> Seq<char>
    decreases xs, n,
{
    if n <= 0 || n > xs.len() {
        Seq::empty()
    } else if n == 1 {
        json_text(xs[0])
    } else {
        elements_text(xs, n - 1) + seq![','] + json_text(xs[n - 1])
    }
}

/// The first `n` members, `"key":value`, comma-separated.
pub closed spec fn members_text(ms: Seq<(String, JsonValue)>, n: int) -> Seq<char>
    decreases ms, n,
{
    if n <= 0 || n > ms.len() {
        Seq::empty()
    } else if n == 1 {
        string_text(ms[0].0@) + seq![':'] + json_text(ms[0].1)
    } else {
        members_text(ms, n - 1) + seq![','] + string_text(ms[n - 1].0@) + seq![':'] + json_text(
            ms[n - 1].1,
        )
    }
}

fn hex_digit(d: u32) -> (c: char)
    requires
        d < 16,
    ensures
        c == hex_char(d as nat),
{
    if d < 10 {
        if d == 0 { '0' } else if d == 1 { '1' } else if d == 2 { '2' } else if d == 3 { '3' }
        else if d == 4 { '4' } else if d == 5 { '5' } else if d == 6 { '6' } else if d == 7 { '7' }
        else if d == 8 { '8' } else { '9' }
    } else if d == 10 {
        'a'
    } else if d == 11 {
        'b'
    } else if d == 12 {
        'c'
    } else if d == 13 {
        'd'
    } else if d == 14 {
        'e'
    } else {
        'f'
    }
}

fn push_escaped_char(s: &mut String, c: char)
    ensures
        final(s)@ == old(s)@ + escape_char(c),
{
    if c == '"' {
        push_char(s, '\\');
        push_char(s, '"');
    } else if c == '\\' {
        push_char(s, '\\');
        push_char(s, '\\');
    } else if c == '\n' {
        push_char(s, '\\');
        push_char(s, 'n');
    } else if c == '\r' {
        push_char(s, '\\');
        push_char(s, 'r');
    } else if c == '\t' {
        push_char(s, '\\');
        push_char(s, 't');
    } else if c == '\u{8}' {
        push_char(s, '\\');
        push_char(s, 'b');
    } else if c == '\u{c}' {
        push_char(s, '\\');
        push_char(s, 'f');
    } else if (c as u32) < 32 {
        push_char(s, '\\');
        push_char(s, 'u');
        push_char(s, '0');
        push_char(s, '0');
        push_char(s, hex_digit((c as u32) / 16));
        push_char(s, hex_digit((c as u32) % 16));
    } else {
        push_char(s, c);
    }
    assert(s@ =~= old(s)@ + escape_char(c));
}

/// Appends a string as a JSON string literal.
pub fn push_string_text(s: &mut String, t: &str)
    ensures
        final(s)@ == old(s)@ + string_text(t@),
{
    let cs = str_chars(t);
    push_char(s, '"');
    let ghost start = s@;
    let mut i: usize = 0;
    while i < cs.len()
        invariant
            i <= cs@.len(),
            cs@ == t@,
            start == old(s)@.push('"'),
            s@ == start + escape_str(cs@.take(i as int)),
        decreases cs@.len() - i,
    {
        proof {
            assert(cs@.take(i + 1).drop_last() =~= cs@.take(i as int));
        }
        push_escaped_char(s, cs[i]);
        proof {
            assert(escape_str(cs@.take(i + 1)) == escape_str(cs@.take(i as int)) + escape_char(cs@[i as int]));
            assert(s@ =~= start + escape_str(cs@.take(i + 1)));
        }
        i = i + 1;
    }
    push_char(s, '"');
    proof {
        assert(cs@.take(cs@.len() as int) =~= cs@);
        assert(s@ =~= old(s)@ + string_text(t@));
    }
}

/// Appends a number as JSON text.
pub fn push_number_text(s: &mut String, n: &JsonNumber)
    ensures
        final(s)@ == old(s)@ + number_text(*n),
{
    match &n.repr {
        NumberRepr::PosInt(x) => {
            push_decimal(s, *x);
        },
        NumberRepr::NegInt(x) => {
            push_char(s, '-');
            let mag: u64 = if *x == i64::MIN { 9223372036854775808u64 } else if *x < 0 { (-*x) as u64 } else { *x as u64 };
            push_decimal(s, mag);
            proof {
                assert(s@ =~= old(s)@ + (seq!['-'] + decimal(mag as nat)));
            }
        },
        NumberRepr::Float(t) => {
            s.append(t.as_str());
        },
    }
}

/// Appends the compact JSON text of a document.
#[verifier::loop_isolation(false)]
pub fn push_json_text(s: &mut String, v: &JsonValue)
    ensures
        final(s)@ == old(s)@ + json_text(*v),
    decreases *v,
{
    match v {
        JsonValue::Null => {
            push_char(s, 'n');
            push_char(s, 'u');
            push_char(s, 'l');
            push_char(s, 'l');
            assert(s@ =~= old(s)@ + json_text(*v));
        },
        JsonValue::Bool(b) => {
            if *b {
                push_char(s, 't');
                push_char(s, 'r');
                push_char(s, 'u');
                push_char(s, 'e');
            } else {
                push_char(s, 'f');
                push_char(s, 'a');
                push_char(s, 'l');
                push_char(s, 's');
                push_char(s, 'e');
            }
            assert(s@ =~= old(s)@ + json_text(*v));
        },
        JsonValue::Number(n) => {
            push_number_text(s, n);
        },
        JsonValue::String(t) => {
            push_string_text(s, t.as_str());
        },
        JsonValue::Array(xs) => {
            push_char(s, '[');
            let ghost start = s@;
            let mut i: usize = 0;
            while i < xs.len()
                invariant
                    i <= xs@.len(),
                    start == old(s)@.push('['),
                    s@ == start + elements_text(xs@, i as int),
                decreases xs@.len() - i,
            {
                if i > 0 {
                    push_char(s, ',');
                }
                proof {
                    assert(decreases_to!(*xs => xs[i as int]));
                }
                push_json_text(s, &xs[i]);
                proof {
                    if i == 0 {
                        assert(elements_text(xs@, 0) =~= Seq::<char>::empty());
                    }
                    assert(s@ =~= start + elements_text(xs@, i + 1));
                }
                i = i + 1;
            }
            push_char(s, ']');
            assert(s@ =~= old(s)@ + json_text(*v));
        },
        JsonValue::Object(m) => {
            proof { StrMap::lemma_pairs_entries(m); }
            push_char(s, '{');
            let ghost start = s@;
            let mlen = m.len();
            let mut i: usize = 0;
            while i < mlen
                invariant
                    i <= mlen,
                    mlen == m.entries@.len(),
                    m.pairs() == m.entries@,
                    start == old(s)@.push('{'),
                    s@ == start + members_text(m.entries@, i as int),
                decreases mlen - i,
            {
                if i > 0 {
                    push_char(s, ',');
                }
                push_string_text(s, m.key_at(i).as_str());
                push_char(s, ':');
                proof {
                    assert(decreases_to!(m.entries => m.entries[i as int]));
                }
                push_json_text(s, m.value_at(i));
                proof {
                    if i == 0 {
                        assert(members_text(m.entries@, 0) =~= Seq::<char>::empty());
                    }
                    assert(s@ =~= start + members_text(m.entries@, i + 1));
                }
                i = i + 1;
            }
            push_char(s, '}');
            assert(s@ =~= old(s)@ + json_text(*v));
        },
    }
}

/// The index key of a value: a tag and the value's text.
pub open spec fn value_key_text(v: JsonValue) -> Seq<char> {
    match v {
        JsonValue::Null => seq!['n', 'u', 'l', 'l'],
        JsonValue::Bool(b) => seq!['b', ':'] + if b {
            seq!['t', 'r', 'u', 'e']
        } else {
            seq!['f', 'a', 'l', 's', 'e']
        },
        JsonValue::Number(n) => seq!['n', ':'] + number_text(n),
        JsonValue::String(t) => seq!['s', ':'] + t@,
        _ => seq!['j', ':'] + json_text(v),
    }
}

/// A scalar whose index key says exactly which value it is: null, a
/// boolean, a string, or an integer (a negative one held as negative).
/// Floats are not: equal floats may be written differently.
pub open spec fn scalar_exact(v: JsonValue) -> bool {
    match v {
        JsonValue::Null => true,
        JsonValue::Bool(_) => true,
        JsonValue::String(_) => true,
        JsonValue::Number(n) => match n.repr {
            NumberRepr::PosInt(_) => true,
            NumberRepr::NegInt(x) => x < 0,
            NumberRepr::Float(_) => false,
        },
        _ => false,
    }
}

/// Strict order of texts: by the first character that differs, a proper
/// prefix first (the order an ordered map keeps its string keys in).
pub open spec fn text_lt(a: Seq<char>, b: Seq<char>) -> bool
    decreases a.len(),
{
    if a.len() == 0 {
        b.len() > 0
    } else if b.len() == 0 {
        false
    } else if a[0] != b[0] {
        (a[0] as nat) < (b[0] as nat)
    } else {
        text_lt(a.drop_first(), b.drop_first())
    }
}

/// Entries whose keys come in strictly increasing order.
pub open spec fn keys_ordered<V>(s: Seq<(String, V)>) -> bool {
    forall|i: int, j: int| #![trigger s[i], s[j]] 0 <= i < j < s.len() ==> text_lt(s[i].0@, s[j].0@)
}

/// A value whose index key says exactly which value it is: an exact
/// scalar, an array whose items are such values, or an object whose
/// members come in increasing key order and whose values are such values,
/// at any depth. (Members held in another order would give another key.)
pub closed spec fn key_exact(v: JsonValue) -> bool
    decreases v,
{
    match v {
        JsonValue::Array(xs) => forall|i: int| 0 <= i < xs@.len() ==> key_exact(#[trigger] xs@[i]),
        JsonValue::Object(m) => keys_ordered(m.entries@) && forall|i: int|
            #![trigger m.entries@[i]]
            0 <= i < m.entries@.len() ==> key_exact(m.entries@[i].1),
        _ => scalar_exact(v),
    }
}

proof fn lemma_decimal_injective(a: nat, b: nat)
    requires
        decimal(a) == decimal(b),
    ensures
        a == b,
{
    lemma_decimal_roundtrip(a);
    lemma_decimal_roundtrip(b);
}

/// For scalars whose keys are exact, equal index keys mean equal values.
proof fn lemma_scalar_key_eq(a: JsonValue, b: JsonValue)
    requires
        scalar_exact(a),
        scalar_exact(b),
    ensures
        (value_key_text(a) == value_key_text(b)) <==> json_eq(a, b, EqMode::Value),
{
    let ka = value_key_text(a);
    let kb = value_key_text(b);
    match a {
        JsonValue::Number(x) => {
            lemma_decimal_roundtrip(number_abs(x));
            match b {
                JsonValue::Number(y) => {
                    lemma_decimal_roundtrip(number_abs(y));
                    match x.repr {
                        NumberRepr::PosInt(p) => match y.repr {
                            NumberRepr::PosInt(q) => {
                                if ka == kb {
                                    assert(decimal(p as nat) =~= ka.subrange(2, ka.len() as int));
                                    assert(decimal(q as nat) =~= kb.subrange(2, kb.len() as int));
                                    lemma_decimal_injective(p as nat, q as nat);
                                }
                            },
                            NumberRepr::NegInt(q) => {
                                assert(ka[2] != kb[2]) by {
                                    assert(ka[2] == decimal(p as nat)[0]);
                                    assert(kb[2] == '-');
                                    assert(crate::text::is_digit(decimal(p as nat)[0]));
                                }
                            },
                            _ => {},
                        },
                        NumberRepr::NegInt(p) => match y.repr {
                            NumberRepr::PosInt(q) => {
                                assert(ka[2] != kb[2]) by {
                                    assert(kb[2] == decimal(q as nat)[0]);
                                    assert(ka[2] == '-');
                                    assert(crate::text::is_digit(decimal(q as nat)[0]));
                                }
                            },
                            NumberRepr::NegInt(q) => {
                                if ka == kb {
                                    assert(decimal((-(p as int)) as nat) =~= ka.subrange(3, ka.len() as int));
                                    assert(decimal((-(q as int)) as nat) =~= kb.subrange(3, kb.len() as int));
                                    lemma_decimal_injective((-(p as int)) as nat, (-(q as int)) as nat);
                                }
                            },
                            _ => {},
                        },
                        _ => {},
                    }
                },
                JsonValue::Null => {
                    assert(ka[1] != kb[1]);
                },
                _ => {
                    assert(ka[0] != kb[0]);
                },
            }
        },
        JsonValue::Null => match b {
            JsonValue::Null => {},
            JsonValue::Number(_) => {
                assert(ka[1] != kb[1]);
            },
            _ => {
                assert(ka[0] != kb[0]);
            },
        },
        JsonValue::Bool(x) => match b {
            JsonValue::Bool(y) => {
                if ka == kb {
                    assert(ka[2] == kb[2]);
                }
            },
            _ => {
                assert(ka[0] != kb[0]);
            },
        },
        JsonValue::String(x) => match b {
            JsonValue::String(y) => {
                if ka == kb {
                    assert(x@ =~= ka.subrange(2, ka.len() as int));
                    assert(y@ =~= kb.subrange(2, kb.len() as int));
                }
            },
            _ => {
                assert(ka[0] != kb[0]);
            },
        },
        _ => {},
    }
    lemma_json_eq_unfold(a, b, EqMode::Value);
}

/// A character a float's text may hold: a digit, a sign, a decimal point
/// or an exponent mark.
pub open spec fn float_char(c: char) -> bool {
    crate::text::is_digit(c) || c == '-' || c == '+' || c == '.' || c == 'e' || c == 'E'
}

/// A number held in canonical form, as JSON text reads: a negative integer
/// is held as `NegInt` of a negative value, and a float's text is made of
/// digits, signs, points and exponent marks, with a decimal point or an
/// exponent among them (so it never reads as an integer).
pub open spec fn number_canonical(n: JsonNumber) -> bool {
    match n.repr {
        NumberRepr::PosInt(_) => true,
        NumberRepr::NegInt(x) => x < 0,
        NumberRepr::Float(t) => (forall|i: int| 0 <= i < t@.len() ==> float_char(#[trigger] t@[i])) && (
        t@.contains('.') || t@.contains('e') || t@.contains('E')),
    }
}

/// A value in canonical form, at any depth (array items and object members
/// included): every number is, and every object holds its members in
/// increasing key order, as an ordered map does.
pub closed spec fn value_canonical(v: JsonValue) -> bool
    decreases v,
{
    match v {
        JsonValue::Number(n) => number_canonical(n),
        JsonValue::Array(xs) => forall|i: int| 0 <= i < xs@.len() ==> value_canonical(#[trigger] xs@[i]),
        JsonValue::Object(m) => keys_ordered(m.entries@) && forall|i: int|
            #![trigger m.entries@[i]]
            0 <= i < m.entries@.len() ==> value_canonical(m.entries@[i].1),
        _ => true,
    }
}

proof fn lemma_int_text_plain(t: Seq<char>, n: nat, neg: bool)
    requires
        t == (if neg { seq!['-'] + decimal(n) } else { decimal(n) }),
    ensures
        !t.contains('.') && !t.contains('e') && !t.contains('E'),
{
    lemma_decimal_roundtrip(n);
    let d = decimal(n);
    assert forall|i: int| 0 <= i < t.len() implies t[i] != '.' && t[i] != 'e' && t[i] != 'E' by {
        if neg {
            if i > 0 {
                assert(t[i] == d[i - 1]);
                assert(crate::text::is_digit(d[i - 1]));
            }
        } else {
            assert(crate::text::is_digit(d[i]));
        }
    }
}

/// Against an exact scalar, any value in canonical form has the same index
/// key exactly when the two are equal as JSON values (either way round).
proof fn lemma_scalar_key_matches(v: JsonValue, w: JsonValue)
    requires
        scalar_exact(w),
        value_canonical(v),
    ensures
        (value_key_text(v) == value_key_text(w)) <==> json_eq(v, w, EqMode::Value),
        (value_key_text(v) == value_key_text(w)) <==> json_eq(w, v, EqMode::Value),
{
    lemma_json_eq_unfold(v, w, EqMode::Value);
    lemma_json_eq_unfold(w, v, EqMode::Value);
    let kv = value_key_text(v);
    let kw = value_key_text(w);
    if scalar_exact(v) {
        lemma_scalar_key_eq(v, w);
        lemma_scalar_key_eq(w, v);
    } else {
        match v {
            JsonValue::Number(x) => {
                match x.repr {
                    NumberRepr::Float(t) => {
                        match w {
                            JsonValue::Number(y) => {
                                if kv == kw {
                                    assert(t@ =~= kv.subrange(2, kv.len() as int));
                                    match y.repr {
                                        NumberRepr::PosInt(q) => {
                                            assert(number_text(y) =~= kw.subrange(2, kw.len() as int));
                                            lemma_int_text_plain(t@, q as nat, false);
                                        },
                                        NumberRepr::NegInt(q) => {
                                            assert(number_text(y) =~= kw.subrange(2, kw.len() as int));
                                            lemma_int_text_plain(t@, (-(q as int)) as nat, true);
                                        },
                                        _ => {},
                                    }
                                }
                            },
                            JsonValue::Null => {
                                assert(kv[1] != kw[1]);
                            },
                            _ => {
                                assert(kv[0] != kw[0]);
                            },
                        }
                    },
                    _ => {},
                }
            },
            _ => {
                match w {
                    JsonValue::Null => {
                        assert(kv[0] != kw[0]);
                    },
                    _ => {
                        assert(kv[0] != kw[0]);
                    },
                }
            },
        }
    }
}

/// A value with an exact key is in canonical form.
proof fn lemma_exact_canonical(v: JsonValue)
    requires
        key_exact(v),
    ensures
        value_canonical(v),
    decreases v,
{
    match v {
        JsonValue::Array(xs) => {
            assert forall|i: int| 0 <= i < xs@.len() implies value_canonical(#[trigger] xs@[i]) by {
                assert(key_exact(xs@[i]));
                lemma_exact_canonical(xs@[i]);
            }
        },
        JsonValue::Object(m) => {
            assert forall|i: int| 0 <= i < m.entries@.len() implies value_canonical(#[trigger] m.entries@[i].1) by {
                assert(key_exact(m.entries@[i].1));
                lemma_exact_canonical(m.entries@[i].1);
            }
        },
        _ => {},
    }
}

/// What `key_exact` says, stated over the objects' entries as `pairs()`
/// gives them.
pub proof fn lemma_key_exact_unfold(v: JsonValue)
    ensures
        key_exact(v) == match v {
            JsonValue::Array(xs) => forall|i: int| 0 <= i < xs@.len() ==> key_exact(#[trigger] xs@[i]),
            JsonValue::Object(m) => keys_ordered(m.pairs()) && forall|i: int|
                #![trigger m.pairs()[i]]
                0 <= i < m.pairs().len() ==> key_exact(m.pairs()[i].1),
            _ => scalar_exact(v),
        },
{
    if let JsonValue::Object(m) = v {
        StrMap::lemma_pairs_entries(&m);
    }
}

/// What `value_canonical` says, stated over the objects' entries as
/// `pairs()` gives them.
pub proof fn lemma_value_canonical_unfold(v: JsonValue)
    ensures
        value_canonical(v) == match v {
            JsonValue::Number(n) => number_canonical(n),
            JsonValue::Array(xs) => forall|i: int| 0 <= i < xs@.len() ==> value_canonical(#[trigger] xs@[i]),
            JsonValue::Object(m) => keys_ordered(m.pairs()) && forall|i: int|
                #![trigger m.pairs()[i]]
                0 <= i < m.pairs().len() ==> value_canonical(m.pairs()[i].1),
            _ => true,
        },
{
    if let JsonValue::Object(m) = v {
        StrMap::lemma_pairs_entries(&m);
    }
}

/// A character written as itself inside JSON quotes.
spec fn plain_char(c: char) -> bool {
    c != '"' && c != '\\' && (c as nat) >= 32
}

/// An escaped character is never written starting with a quote.
proof fn lemma_escape_head(c: char)
    ensures
        escape_char(c).len() > 0,
        escape_char(c)[0] != '"',
        plain_char(c) ==> escape_char(c) == seq![c],
        !plain_char(c) ==> escape_char(c).len() >= 2 && escape_char(c)[0] == '\\',
{
}

/// Escaping a string goes character by character from the front too.
proof fn lemma_escape_front(c: char, s: Seq<char>)
    ensures
        escape_str(seq![c] + s) == escape_char(c) + escape_str(s),
    decreases s.len(),
{
    let t = seq![c] + s;
    if s.len() == 0 {
        assert(t.drop_last() =~= Seq::<char>::empty());
        assert(t.last() == c);
        assert(escape_str(t) == escape_str(t.drop_last()) + escape_char(t.last()));
        assert(escape_str(Seq::<char>::empty()) =~= Seq::<char>::empty());
        assert(escape_str(t) =~= escape_char(c));
        assert(escape_char(c) + escape_str(s) =~= escape_char(c));
    } else {
        lemma_escape_front(c, s.drop_last());
        assert(t.drop_last() =~= seq![c] + s.drop_last());
        assert(t.last() == s.last());
        assert(escape_str(t) =~= escape_char(c) + escape_str(s));
    }
}

/// Distinct hexadecimal digits are written differently.
proof fn lemma_hex_injective(x: nat, y: nat)
    requires
        x < 16,
        y < 16,
        hex_char(x) == hex_char(y),
    ensures
        x == y,
{
}

/// No escaped character is a prefix of another one's escape: what a string
/// literal starts with tells which character comes first.
proof fn lemma_escape_prefix_free(c: char, d: char, s1: Seq<char>, s2: Seq<char>)
    requires
        escape_char(c) + s1 == escape_char(d) + s2,
    ensures
        c == d,
        s1 == s2,
{
    let t = escape_char(c) + s1;
    let ec = escape_char(c);
    let ed = escape_char(d);
    lemma_escape_head(c);
    lemma_escape_head(d);
    assert(t[0] == ec[0] && t[0] == ed[0]);
    if !plain_char(c) && !plain_char(d) {
        assert(t[1] == ec[1] && t[1] == ed[1]);
        if ec[1] == 'u' {
            assert(t[4] == ec[4] && t[4] == ed[4]);
            assert(t[5] == ec[5] && t[5] == ed[5]);
            lemma_hex_injective((c as nat) / 16, (d as nat) / 16);
            lemma_hex_injective((c as nat) % 16, (d as nat) % 16);
            assert((c as nat) == (d as nat));
        }
    }
    assert(ec == ed);
    assert(s1 =~= t.subrange(ec.len() as int, t.len() as int));
    assert(s2 =~= t.subrange(ed.len() as int, t.len() as int));
}

/// A string literal's text, followed by anything, gives back the string and
/// what follows.
proof fn lemma_string_unique(x: Seq<char>, y: Seq<char>, r1: Seq<char>, r2: Seq<char>)
    requires
        escape_str(x) + seq!['"'] + r1 == escape_str(y) + seq!['"'] + r2,
    ensures
        x == y,
        r1 == r2,
    decreases x.len(),
{
    let q = seq!['"'];
    let lhs = escape_str(x) + q + r1;
    let rhs = escape_str(y) + q + r2;
    if x.len() > 0 {
        let x1 = x.subrange(1, x.len() as int);
        assert(x =~= seq![x[0]] + x1);
        lemma_escape_front(x[0], x1);
        lemma_escape_head(x[0]);
        assert(lhs =~= escape_char(x[0]) + (escape_str(x1) + q + r1));
        assert(lhs[0] != '"');
    }
    if y.len() > 0 {
        let y1 = y.subrange(1, y.len() as int);
        assert(y =~= seq![y[0]] + y1);
        lemma_escape_front(y[0], y1);
        lemma_escape_head(y[0]);
        assert(rhs =~= escape_char(y[0]) + (escape_str(y1) + q + r2));
        assert(rhs[0] != '"');
    }
    if x.len() == 0 || y.len() == 0 {
        if x.len() == 0 {
            assert(escape_str(x) =~= Seq::<char>::empty());
            assert(lhs[0] == '"');
        }
        if y.len() == 0 {
            assert(escape_str(y) =~= Seq::<char>::empty());
            assert(rhs[0] == '"');
        }
        assert(x.len() == 0 && y.len() == 0);
        assert(r1 =~= lhs.subrange(1, lhs.len() as int));
        assert(r2 =~= rhs.subrange(1, rhs.len() as int));
        assert(x =~= y);
    } else {
        let x1 = x.subrange(1, x.len() as int);
        let y1 = y.subrange(1, y.len() as int);
        lemma_escape_prefix_free(x[0], y[0], escape_str(x1) + q + r1, escape_str(y1) + q + r2);
        lemma_string_unique(x1, y1, r1, r2);
        assert(x =~= y);
    }
}

/// The first character of a value's text tells its kind.
proof fn lemma_text_head(v: JsonValue)
    requires
        value_canonical(v),
    ensures
        json_text(v).len() > 0,
        v is Null ==> json_text(v)[0] == 'n',
        v is Bool ==> json_text(v)[0] == 't' || json_text(v)[0] == 'f',
        v is Number ==> float_char(json_text(v)[0]),
        v is String ==> json_text(v)[0] == '"',
        v is Array ==> json_text(v)[0] == '[',
        v is Object ==> json_text(v)[0] == '{',
{
    if let JsonValue::Number(n) = v {
        lemma_decimal_roundtrip(number_abs(n));
        match n.repr {
            NumberRepr::PosInt(x) => {
                assert(crate::text::is_digit(decimal(x as nat)[0]));
            },
            NumberRepr::NegInt(x) => {},
            NumberRepr::Float(t) => {
                assert(t@.len() > 0);
                assert(float_char(t@[0]));
            },
        }
    }
}

/// The text of a null, a boolean or a number in canonical form holds no
/// comma and no closing bracket.
proof fn lemma_scalar_text_plain(v: JsonValue)
    requires
        value_canonical(v),
        v is Null || v is Bool || v is Number,
    ensures
        forall|i: int|
            0 <= i < json_text(v).len() ==> json_text(v)[i] != ',' && json_text(v)[i] != ']' && json_text(v)[i]
                != '}',
{
    let t = json_text(v);
    if let JsonValue::Number(n) = v {
        lemma_decimal_roundtrip(number_abs(n));
        let d = decimal(number_abs(n));
        assert forall|i: int| 0 <= i < t.len() implies t[i] != ',' && t[i] != ']' && t[i] != '}' by {
            match n.repr {
                NumberRepr::PosInt(x) => {
                    assert(crate::text::is_digit(d[i]));
                },
                NumberRepr::NegInt(x) => {
                    if i > 0 {
                        assert(t[i] == d[i - 1]);
                        assert(crate::text::is_digit(d[i - 1]));
                    }
                },
                NumberRepr::Float(s) => {
                    assert(float_char(s@[i]));
                },
            }
        }
    }
}

/// The elements' text, read from the front: the first element, and the
/// rest after a comma.
proof fn lemma_elements_front(xs: Seq<JsonValue>, n: int)
    requires
        2 <= n <= xs.len(),
    ensures
        elements_text(xs, n) == json_text(xs[0]) + seq![','] + elements_text(
            xs.subrange(1, xs.len() as int),
            n - 1,
        ),
    decreases n,
{
    let ys = xs.subrange(1, xs.len() as int);
    if n == 2 {
        assert(elements_text(xs, 1) == json_text(xs[0]));
        assert(ys[0] == xs[1]);
        assert(elements_text(ys, 1) == json_text(ys[0]));
        assert(elements_text(xs, 2) =~= json_text(xs[0]) + seq![','] + elements_text(ys, 1));
    } else {
        lemma_elements_front(xs, n - 1);
        assert(ys[n - 2] == xs[n - 1]);
        assert(elements_text(ys, n - 1) == elements_text(ys, n - 2) + seq![','] + json_text(ys[n - 2]));
        assert(elements_text(xs, n) =~= json_text(xs[0]) + seq![','] + elements_text(ys, n - 1));
    }
}

/// Elements with the same texts, one for one, have the same text together.
proof fn lemma_elements_same(xs: Seq<JsonValue>, ys: Seq<JsonValue>, n: int)
    requires
        xs.len() == ys.len(),
        0 <= n <= xs.len(),
        forall|i: int| 0 <= i < xs.len() ==> json_text(#[trigger] xs[i]) == json_text(ys[i]),
    ensures
        elements_text(xs, n) == elements_text(ys, n),
    decreases n,
{
    if n > 1 {
        lemma_elements_same(xs, ys, n - 1);
        assert(json_text(xs[n - 1]) == json_text(ys[n - 1]));
    } else if n == 1 {
        assert(json_text(xs[0]) == json_text(ys[0]));
    }
}

proof fn lemma_text_lt_asym(a: Seq<char>, b: Seq<char>)
    ensures
        text_lt(a, b) ==> !text_lt(b, a),
    decreases a.len(),
{
    if a.len() > 0 && b.len() > 0 && a[0] == b[0] {
        lemma_text_lt_asym(a.drop_first(), b.drop_first());
    }
}

/// Texts in strictly increasing order.
spec fn texts_ordered(s: Seq<Seq<char>>) -> bool {
    forall|i: int, j: int| #![trigger s[i], s[j]] 0 <= i < j < s.len() ==> text_lt(s[i], s[j])
}

/// Two increasing sequences of texts, each holding every text of the
/// other, are the same.
proof fn lemma_ordered_both_ways(s: Seq<Seq<char>>, t: Seq<Seq<char>>)
    requires
        texts_ordered(s),
        texts_ordered(t),
        forall|i: int| 0 <= i < s.len() ==> t.contains(#[trigger] s[i]),
        forall|j: int| 0 <= j < t.len() ==> s.contains(#[trigger] t[j]),
    ensures
        s == t,
    decreases s.len(),
{
    if s.len() == 0 {
        if t.len() > 0 {
            assert(s.contains(t[0]));
        }
        assert(s =~= t);
    } else {
        assert(t.contains(s[0]));
        let j = choose|j: int| 0 <= j < t.len() && t[j] == s[0];
        assert(s.contains(t[0]));
        let k = choose|k: int| 0 <= k < s.len() && s[k] == t[0];
        if j > 0 {
            assert(text_lt(t[0], t[j]));
            lemma_text_lt_asym(t[0], t[j]);
            if k == 0 {
                assert(t[0] == t[j]);
            } else {
                assert(text_lt(s[0], s[k]));
            }
        }
        assert(j == 0);
        let s1 = s.drop_first();
        let t1 = t.drop_first();
        assert forall|i: int| 0 <= i < s1.len() implies t1.contains(#[trigger] s1[i]) by {
            assert(s1[i] == s[i + 1]);
            assert(t.contains(s[i + 1]));
            let m = choose|m: int| 0 <= m < t.len() && t[m] == s[i + 1];
            assert(text_lt(s[0], s[i + 1]));
            lemma_text_lt_asym(s[0], s[i + 1]);
            assert(m != 0);
            assert(t1[m - 1] == t[m]);
        }
        assert forall|i: int| 0 <= i < t1.len() implies s1.contains(#[trigger] t1[i]) by {
            assert(t1[i] == t[i + 1]);
            assert(s.contains(t[i + 1]));
            let m = choose|m: int| 0 <= m < s.len() && s[m] == t[i + 1];
            assert(text_lt(t[0], t[i + 1]));
            lemma_text_lt_asym(t[0], t[i + 1]);
            assert(m != 0);
            assert(s1[m - 1] == s[m]);
        }
        assert(texts_ordered(s1)) by {
            assert forall|a: int, b: int| 0 <= a < b < s1.len() implies text_lt(#[trigger] s1[a], #[trigger] s1[b]) by {
                assert(s1[a] == s[a + 1] && s1[b] == s[b + 1]);
            }
        }
        assert(texts_ordered(t1)) by {
            assert forall|a: int, b: int| 0 <= a < b < t1.len() implies text_lt(#[trigger] t1[a], #[trigger] t1[b]) by {
                assert(t1[a] == t[a + 1] && t1[b] == t[b + 1]);
            }
        }
        lemma_ordered_both_ways(s1, t1);
        assert(s =~= t) by {
            assert forall|i: int| 0 <= i < s.len() implies s[i] == t[i] by {
                if i > 0 {
                    assert(s[i] == s1[i - 1] && t[i] == t1[i - 1]);
                }
            }
        }
    }
}

/// The keys of entries, in order.
spec fn keys_of(s: Seq<(String, JsonValue)>) -> Seq<Seq<char>> {
    s.map_values(|p: (String, JsonValue)| p.0@)
}

/// Entries in increasing key order, as many as others in increasing key
/// order whose keys they all hold, have the same keys in the same places.
proof fn lemma_ordered_same_keys(s: Seq<(String, JsonValue)>, t: Seq<(String, JsonValue)>)
    requires
        keys_ordered(s),
        keys_ordered(t),
        s.len() == t.len(),
        forall|i: int| 0 <= i < s.len() ==> crate::strmap::has_key(t, #[trigger] s[i].0@),
    ensures
        forall|i: int| 0 <= i < s.len() ==> (#[trigger] s[i]).0@ == t[i].0@,
{
    let ks = keys_of(s);
    let kt = keys_of(t);
    assert(texts_ordered(ks)) by {
        assert forall|a: int, b: int| 0 <= a < b < ks.len() implies text_lt(#[trigger] ks[a], #[trigger] ks[b]) by {
            assert(ks[a] == s[a].0@ && ks[b] == s[b].0@);
        }
    }
    assert(texts_ordered(kt)) by {
        assert forall|a: int, b: int| 0 <= a < b < kt.len() implies text_lt(#[trigger] kt[a], #[trigger] kt[b]) by {
            assert(kt[a] == t[a].0@ && kt[b] == t[b].0@);
        }
    }
    assert(ks.no_duplicates()) by {
        assert forall|a: int, b: int| 0 <= a < ks.len() && 0 <= b < ks.len() && a != b implies ks[a] != ks[b] by {
            if a < b {
                assert(text_lt(ks[a], ks[b]));
                lemma_text_lt_asym(ks[a], ks[b]);
            } else {
                assert(text_lt(ks[b], ks[a]));
                lemma_text_lt_asym(ks[b], ks[a]);
            }
        }
    }
    assert(kt.no_duplicates()) by {
        assert forall|a: int, b: int| 0 <= a < kt.len() && 0 <= b < kt.len() && a != b implies kt[a] != kt[b] by {
            if a < b {
                assert(text_lt(kt[a], kt[b]));
                lemma_text_lt_asym(kt[a], kt[b]);
            } else {
                assert(text_lt(kt[b], kt[a]));
                lemma_text_lt_asym(kt[b], kt[a]);
            }
        }
    }
    ks.unique_seq_to_set();
    kt.unique_seq_to_set();
    vstd::seq_lib::seq_to_set_is_finite(ks);
    vstd::seq_lib::seq_to_set_is_finite(kt);
    assert forall|i: int| 0 <= i < ks.len() implies kt.contains(#[trigger] ks[i]) by {
        assert(ks[i] == s[i].0@);
        assert(crate::strmap::has_key(t, s[i].0@));
        let j = choose|j: int| 0 <= j < t.len() && t[j].0@ == s[i].0@;
        assert(kt[j] == t[j].0@);
    }
    assert(ks.to_set().subset_of(kt.to_set())) by {
        assert forall|k: Seq<char>| ks.to_set().contains(k) implies kt.to_set().contains(k) by {
            let i = choose|i: int| 0 <= i < ks.len() && ks[i] == k;
            assert(kt.contains(ks[i]));
        }
    }
    vstd::set_lib::lemma_subset_equality(ks.to_set(), kt.to_set());
    assert forall|j: int| 0 <= j < kt.len() implies ks.contains(#[trigger] kt[j]) by {
        assert(kt.to_set().contains(kt[j]));
        assert(ks.to_set().contains(kt[j]));
    }
    lemma_ordered_both_ways(ks, kt);
    assert forall|i: int| 0 <= i < s.len() implies (#[trigger] s[i]).0@ == t[i].0@ by {
        assert(ks[i] == s[i].0@ && kt[i] == t[i].0@);
    }
}

/// Keys in increasing order are distinct, and each is found where it is.
proof fn lemma_ordered_key_pos(s: Seq<(String, JsonValue)>)
    requires
        keys_ordered(s),
    ensures
        crate::strmap::keys_distinct(s),
        forall|i: int| 0 <= i < s.len() ==> key_pos(s, (#[trigger] s[i]).0@) == i,
{
    assert forall|i: int, j: int| 0 <= i < j < s.len() implies s[i].0@ != s[j].0@ by {
        assert(text_lt(s[i].0@, s[j].0@));
        lemma_text_lt_asym(s[i].0@, s[j].0@);
    }
    assert forall|i: int| 0 <= i < s.len() implies key_pos(s, (#[trigger] s[i]).0@) == i by {
        lemma_key_pos(s, s[i].0@);
    }
}

/// A member as `"key":value`.
spec fn member_text(p: (String, JsonValue)) -> Seq<char> {
    string_text(p.0@) + seq![':'] + json_text(p.1)
}

/// The members' text, read from the front: the first member, and the rest
/// after a comma.
proof fn lemma_members_front(ms: Seq<(String, JsonValue)>, n: int)
    requires
        1 <= n <= ms.len(),
    ensures
        n == 1 ==> members_text(ms, n) == member_text(ms[0]),
        n >= 2 ==> members_text(ms, n) == member_text(ms[0]) + seq![','] + members_text(
            ms.subrange(1, ms.len() as int),
            n - 1,
        ),
    decreases n,
{
    let ns = ms.subrange(1, ms.len() as int);
    if n == 1 {
        assert(members_text(ms, 1) =~= member_text(ms[0]));
    } else if n == 2 {
        lemma_members_front(ms, 1);
        assert(ns[0] == ms[1]);
        assert(members_text(ns, 1) =~= member_text(ns[0]));
        assert(members_text(ms, 2) =~= member_text(ms[0]) + seq![','] + members_text(ns, 1));
    } else {
        lemma_members_front(ms, n - 1);
        assert(ns[n - 2] == ms[n - 1]);
        assert(members_text(ns, n - 1) =~= members_text(ns, n - 2) + seq![','] + member_text(ns[n - 2]));
        assert(members_text(ms, n) =~= members_text(ms, n - 1) + seq![','] + member_text(ms[n - 1]));
        assert(members_text(ms, n) =~= member_text(ms[0]) + seq![','] + members_text(ns, n - 1));
    }
}

/// Members with the same keys and the same value texts, one for one, have
/// the same text together.
proof fn lemma_members_same(ms: Seq<(String, JsonValue)>, ns: Seq<(String, JsonValue)>, n: int)
    requires
        ms.len() == ns.len(),
        0 <= n <= ms.len(),
        forall|i: int| 0 <= i < ms.len() ==> (#[trigger] ms[i]).0@ == ns[i].0@ && json_text(ms[i].1) == json_text(ns[i].1),
    ensures
        members_text(ms, n) == members_text(ns, n),
    decreases n,
{
    if n > 1 {
        lemma_members_same(ms, ns, n - 1);
        assert(ms[n - 1].0@ == ns[n - 1].0@);
    } else if n == 1 {
        assert(ms[0].0@ == ns[0].0@);
    }
}

/// What may follow a value's text inside an array or an object: nothing, a
/// comma or a closing bracket or brace.
spec fn stop_rest(r: Seq<char>) -> bool {
    r.len() == 0 || r[0] == ',' || r[0] == ']' || r[0] == '}'
}

/// `a`'s text and `b`'s text, each followed by what may follow a value, are
/// the same characters, `b` being in canonical form.
spec fn text_meets(a: JsonValue, b: JsonValue, r1: Seq<char>, r2: Seq<char>) -> bool {
    &&& value_canonical(b)
    &&& json_text(a) + r1 == json_text(b) + r2
    &&& stop_rest(r1)
    &&& stop_rest(r2)
}

spec fn text_agrees(a: JsonValue, b: JsonValue, r1: Seq<char>, r2: Seq<char>) -> bool {
    &&& json_text(a) == json_text(b)
    &&& r1 == r2
    &&& json_eq(a, b, EqMode::Value)
    &&& json_eq(b, a, EqMode::Value)
}

/// `a`'s text cannot be read, in front of a comma or a bracket, as the text
/// of any other value in canonical form.
spec fn reads_back(a: JsonValue) -> bool {
    forall|b: JsonValue, r1: Seq<char>, r2: Seq<char>| #[trigger]
        text_meets(a, b, r1, r2) ==> text_agrees(a, b, r1, r2)
}

/// Elements that read back, written out and closed by a bracket, give back
/// the elements one for one and what follows.
proof fn lemma_items_read_back(xs: Seq<JsonValue>, ys: Seq<JsonValue>, r1: Seq<char>, r2: Seq<char>)
    requires
        forall|i: int| 0 <= i < xs.len() ==> reads_back(#[trigger] xs[i]) && value_canonical(xs[i]),
        forall|j: int| 0 <= j < ys.len() ==> value_canonical(#[trigger] ys[j]),
        elements_text(xs, xs.len() as int) + seq![']'] + r1 == elements_text(ys, ys.len() as int) + seq![']']
            + r2,
    ensures
        xs.len() == ys.len(),
        forall|i: int|
            0 <= i < xs.len() ==> json_eq(#[trigger] xs[i], ys[i], EqMode::Value) && json_eq(
                ys[i],
                xs[i],
                EqMode::Value,
            ),
        elements_text(xs, xs.len() as int) == elements_text(ys, ys.len() as int),
        r1 == r2,
    decreases xs.len(),
{
    let c = seq![']'];
    let ex = elements_text(xs, xs.len() as int);
    let ey = elements_text(ys, ys.len() as int);
    let lhs = ex + c + r1;
    let rhs = ey + c + r2;
    let xt = xs.subrange(1, xs.len() as int);
    let yt = ys.subrange(1, ys.len() as int);
    let tx = if xs.len() <= 1 {
        Seq::<char>::empty()
    } else {
        seq![','] + elements_text(xt, xt.len() as int)
    };
    let ty = if ys.len() <= 1 {
        Seq::<char>::empty()
    } else {
        seq![','] + elements_text(yt, yt.len() as int)
    };
    if xs.len() > 0 {
        if xs.len() >= 2 {
            lemma_elements_front(xs, xs.len() as int);
        }
        assert(ex =~= json_text(xs[0]) + tx);
        lemma_text_head(xs[0]);
        assert(lhs =~= json_text(xs[0]) + (tx + c + r1));
        assert(lhs[0] != ']');
    } else {
        assert(ex =~= Seq::<char>::empty());
        assert(lhs[0] == ']');
    }
    if ys.len() > 0 {
        if ys.len() >= 2 {
            lemma_elements_front(ys, ys.len() as int);
        }
        assert(ey =~= json_text(ys[0]) + ty);
        lemma_text_head(ys[0]);
        assert(rhs =~= json_text(ys[0]) + (ty + c + r2));
        assert(rhs[0] != ']');
    } else {
        assert(ey =~= Seq::<char>::empty());
        assert(rhs[0] == ']');
    }
    if xs.len() == 0 || ys.len() == 0 {
        assert(xs.len() == 0 && ys.len() == 0);
        assert(r1 =~= lhs.subrange(1, lhs.len() as int));
        assert(r2 =~= rhs.subrange(1, rhs.len() as int));
    } else {
        let s1 = tx + c + r1;
        let s2 = ty + c + r2;
        assert(stop_rest(s1));
        assert(stop_rest(s2));
        assert(reads_back(xs[0]));
        assert(text_meets(xs[0], ys[0], s1, s2));
        assert(text_agrees(xs[0], ys[0], s1, s2));
        if xs.len() == 1 || ys.len() == 1 {
            assert(s1[0] == s2[0]);
            assert(xs.len() == 1 && ys.len() == 1);
            assert(r1 =~= s1.subrange(1, s1.len() as int));
            assert(r2 =~= s2.subrange(1, s2.len() as int));
        } else {
            let u1 = elements_text(xt, xt.len() as int) + c + r1;
            let u2 = elements_text(yt, yt.len() as int) + c + r2;
            assert(u1 =~= s1.subrange(1, s1.len() as int));
            assert(u2 =~= s2.subrange(1, s2.len() as int));
            assert forall|i: int| 0 <= i < xt.len() implies reads_back(#[trigger] xt[i]) && value_canonical(xt[i]) by {
                assert(xt[i] == xs[i + 1]);
            }
            assert forall|j: int| 0 <= j < yt.len() implies value_canonical(#[trigger] yt[j]) by {
                assert(yt[j] == ys[j + 1]);
            }
            lemma_items_read_back(xt, yt, r1, r2);
            assert forall|i: int| 0 <= i < xs.len() implies json_eq(#[trigger] xs[i], ys[i], EqMode::Value)
                && json_eq(ys[i], xs[i], EqMode::Value) by {
                if i > 0 {
                    assert(xs[i] == xt[i - 1]);
                    assert(ys[i] == yt[i - 1]);
                }
            }
        }
    }
}

/// What follows the first member: nothing, or a comma and the other
/// members.
spec fn members_rest(ms: Seq<(String, JsonValue)>) -> Seq<char> {
    if ms.len() <= 1 {
        Seq::empty()
    } else {
        seq![','] + members_text(ms.subrange(1, ms.len() as int), ms.len() - 1)
    }
}

/// Members followed by a brace and `r`: a quote, then the first key's
/// escaped text, a quote, a colon, the first value's text and the rest.
proof fn lemma_member_first(ms: Seq<(String, JsonValue)>, r: Seq<char>)
    requires
        ms.len() > 0,
    ensures
        (members_text(ms, ms.len() as int) + seq!['}'] + r)[0] == '"',
        (members_text(ms, ms.len() as int) + seq!['}'] + r).subrange(
            1,
            (members_text(ms, ms.len() as int) + seq!['}'] + r).len() as int,
        ) == escape_str(ms[0].0@) + seq!['"'] + (seq![':'] + (json_text(ms[0].1) + (members_rest(ms) + seq![
            '}',
        ] + r))),
        stop_rest(members_rest(ms) + seq!['}'] + r),
{
    lemma_members_front(ms, ms.len() as int);
    let em = members_text(ms, ms.len() as int);
    assert(em =~= member_text(ms[0]) + members_rest(ms));
    let whole = em + seq!['}'] + r;
    assert(whole =~= seq!['"'] + (escape_str(ms[0].0@) + seq!['"'] + (seq![':'] + (json_text(ms[0].1) + (
    members_rest(ms) + seq!['}'] + r)))));
}

/// Members whose values read back, written out and closed by a brace, give
/// back the keys and values one for one and what follows.
proof fn lemma_members_read_back(
    ms: Seq<(String, JsonValue)>,
    ns: Seq<(String, JsonValue)>,
    r1: Seq<char>,
    r2: Seq<char>,
)
    requires
        forall|i: int| #![trigger ms[i]] 0 <= i < ms.len() ==> reads_back(ms[i].1) && value_canonical(ms[i].1),
        forall|j: int| #![trigger ns[j]] 0 <= j < ns.len() ==> value_canonical(ns[j].1),
        members_text(ms, ms.len() as int) + seq!['}'] + r1 == members_text(ns, ns.len() as int) + seq!['}']
            + r2,
    ensures
        ms.len() == ns.len(),
        forall|i: int|
            #![trigger ms[i]]
            0 <= i < ms.len() ==> ms[i].0@ == ns[i].0@ && json_eq(ms[i].1, ns[i].1, EqMode::Value) && json_eq(
                ns[i].1,
                ms[i].1,
                EqMode::Value,
            ),
        members_text(ms, ms.len() as int) == members_text(ns, ns.len() as int),
        r1 == r2,
    decreases ms.len(),
{
    let c = seq!['}'];
    let lhs = members_text(ms, ms.len() as int) + c + r1;
    let rhs = members_text(ns, ns.len() as int) + c + r2;
    if ms.len() == 0 || ns.len() == 0 {
        if ms.len() > 0 {
            lemma_member_first(ms, r1);
        } else {
            assert(members_text(ms, 0) =~= Seq::<char>::empty());
            assert(lhs[0] == '}');
        }
        if ns.len() > 0 {
            lemma_member_first(ns, r2);
        } else {
            assert(members_text(ns, 0) =~= Seq::<char>::empty());
            assert(rhs[0] == '}');
        }
        assert(ms.len() == 0 && ns.len() == 0);
        assert(r1 =~= lhs.subrange(1, lhs.len() as int));
        assert(r2 =~= rhs.subrange(1, rhs.len() as int));
    } else {
        lemma_member_first(ms, r1);
        lemma_member_first(ns, r2);
        let s1 = members_rest(ms) + c + r1;
        let s2 = members_rest(ns) + c + r2;
        let v1 = ms[0].1;
        let v2 = ns[0].1;
        let col = seq![':'];
        let a1 = json_text(v1) + s1;
        let a2 = json_text(v2) + s2;
        lemma_string_unique(ms[0].0@, ns[0].0@, col + a1, col + a2);
        assert(a1 =~= (col + a1).subrange(1, a1.len() + 1int));
        assert(a2 =~= (col + a2).subrange(1, a2.len() + 1int));
        assert(reads_back(v1));
        assert(text_meets(v1, v2, s1, s2));
        assert(text_agrees(v1, v2, s1, s2));
        lemma_members_after_first(ms, ns, r1, r2);
    }
}

/// The step after the first members agree: what follows them agrees too.
proof fn lemma_members_after_first(
    ms: Seq<(String, JsonValue)>,
    ns: Seq<(String, JsonValue)>,
    r1: Seq<char>,
    r2: Seq<char>,
)
    requires
        ms.len() > 0,
        ns.len() > 0,
        forall|i: int| #![trigger ms[i]] 0 <= i < ms.len() ==> reads_back(ms[i].1) && value_canonical(ms[i].1),
        forall|j: int| #![trigger ns[j]] 0 <= j < ns.len() ==> value_canonical(ns[j].1),
        ms[0].0@ == ns[0].0@,
        text_agrees(ms[0].1, ns[0].1, members_rest(ms) + seq!['}'] + r1, members_rest(ns) + seq!['}'] + r2),
    ensures
        ms.len() == ns.len(),
        forall|i: int|
            #![trigger ms[i]]
            0 <= i < ms.len() ==> ms[i].0@ == ns[i].0@ && json_eq(ms[i].1, ns[i].1, EqMode::Value) && json_eq(
                ns[i].1,
                ms[i].1,
                EqMode::Value,
            ),
        members_text(ms, ms.len() as int) == members_text(ns, ns.len() as int),
        r1 == r2,
    decreases ms.len(), 0int,
{
    let c = seq!['}'];
    let s1 = members_rest(ms) + c + r1;
    let s2 = members_rest(ns) + c + r2;
    let mt = ms.subrange(1, ms.len() as int);
    let nt = ns.subrange(1, ns.len() as int);
    lemma_members_front(ms, ms.len() as int);
    lemma_members_front(ns, ns.len() as int);
    assert(members_text(ms, ms.len() as int) =~= member_text(ms[0]) + members_rest(ms));
    assert(members_text(ns, ns.len() as int) =~= member_text(ns[0]) + members_rest(ns));
    assert(member_text(ms[0]) == member_text(ns[0]));
    if ms.len() == 1 || ns.len() == 1 {
        assert(s1[0] == s2[0]);
        assert(ms.len() == 1 && ns.len() == 1);
        assert(r1 =~= s1.subrange(1, s1.len() as int));
        assert(r2 =~= s2.subrange(1, s2.len() as int));
    } else {
        let u1 = members_text(mt, mt.len() as int) + c + r1;
        let u2 = members_text(nt, nt.len() as int) + c + r2;
        assert(u1 =~= s1.subrange(1, s1.len() as int));
        assert(u2 =~= s2.subrange(1, s2.len() as int));
        assert forall|i: int| #![trigger mt[i]] 0 <= i < mt.len() implies reads_back(mt[i].1) && value_canonical(mt[i].1) by {
            assert(mt[i] == ms[i + 1]);
        }
        assert forall|j: int| #![trigger nt[j]] 0 <= j < nt.len() implies value_canonical(nt[j].1) by {
            assert(nt[j] == ns[j + 1]);
        }
        lemma_members_read_back(mt, nt, r1, r2);
        assert forall|i: int| #![trigger ms[i]] 0 <= i < ms.len() implies ms[i].0@ == ns[i].0@ && json_eq(
            ms[i].1,
            ns[i].1,
            EqMode::Value,
        ) && json_eq(ns[i].1, ms[i].1, EqMode::Value) by {
            if i > 0 {
                assert(ms[i] == mt[i - 1]);
                assert(ns[i] == nt[i - 1]);
            }
        }
    }
}

/// Reading back an object whose member values read back.
proof fn lemma_meets_object(a: JsonValue, b: JsonValue, r1: Seq<char>, r2: Seq<char>)
    requires
        a is Object,
        b is Object,
        key_exact(a),
        value_canonical(b),
        a matches JsonValue::Object(m) ==> forall|i: int|
            #![trigger m.entries@[i]]
            0 <= i < m.entries@.len() ==> reads_back(m.entries@[i].1),
        json_text(a) + r1 == json_text(b) + r2,
    ensures
        text_agrees(a, b, r1, r2),
{
    let ta = json_text(a);
    let tb = json_text(b);
    let whole = ta + r1;
    match a {
        JsonValue::Object(m) => match b {
            JsonValue::Object(n) => {
                let c = seq!['}'];
                let ms = m.entries@;
                let ns = n.entries@;
                let em = members_text(ms, ms.len() as int);
                let en = members_text(ns, ns.len() as int);
                assert(ta == seq!['{'] + em + c);
                assert(tb == seq!['{'] + en + c);
                assert(em + c + r1 =~= whole.subrange(1, whole.len() as int));
                assert(en + c + r2 =~= (tb + r2).subrange(1, whole.len() as int));
                assert forall|i: int| #![trigger ms[i]] 0 <= i < ms.len() implies reads_back(ms[i].1) && value_canonical(
                    ms[i].1,
                ) by {
                    assert(key_exact(ms[i].1));
                    lemma_exact_canonical(ms[i].1);
                }
                assert forall|j: int| #![trigger ns[j]] 0 <= j < ns.len() implies value_canonical(ns[j].1) by {}
                lemma_members_read_back(ms, ns, r1, r2);
                assert(ta =~= tb);
                lemma_ordered_key_pos(ms);
                lemma_ordered_key_pos(ns);
                assert forall|i: int| 0 <= i < ms.len() implies key_pos(ns, #[trigger] ms[i].0@) == i by {
                    assert(ns[i].0@ == ms[i].0@);
                }
                assert forall|i: int| 0 <= i < ns.len() implies key_pos(ms, #[trigger] ns[i].0@) == i by {
                    assert(ns[i].0@ == ms[i].0@);
                }
                assert(json_eq(a, b, EqMode::Value));
                assert(json_eq(b, a, EqMode::Value));
            },
            _ => {},
        },
        _ => {},
    }
}

/// One step of reading back: a value with an exact key whose items or
/// member values, if it is an array or an object, read back.
proof fn lemma_meets_agree(a: JsonValue, b: JsonValue, r1: Seq<char>, r2: Seq<char>)
    requires
        key_exact(a),
        a matches JsonValue::Array(xs) ==> forall|i: int| 0 <= i < xs@.len() ==> reads_back(#[trigger] xs@[i]),
        a matches JsonValue::Object(m) ==> forall|i: int|
            #![trigger m.entries@[i]]
            0 <= i < m.entries@.len() ==> reads_back(m.entries@[i].1),
        text_meets(a, b, r1, r2),
    ensures
        text_agrees(a, b, r1, r2),
{
    lemma_exact_canonical(a);
    lemma_text_head(a);
    lemma_text_head(b);
    let ta = json_text(a);
    let tb = json_text(b);
    let whole = ta + r1;
    assert(whole == tb + r2);
    assert(whole[0] == ta[0]);
    assert(whole[0] == (tb + r2)[0]);
    assert(ta[0] == tb[0]);
    if !(a is Object) {
        lemma_json_eq_unfold(a, b, EqMode::Value);
        lemma_json_eq_unfold(b, a, EqMode::Value);
    }
    match a {
        JsonValue::Array(xs) => {
            if let JsonValue::Array(ys) = b {
                let c = seq![']'];
                let ex = elements_text(xs@, xs@.len() as int);
                let ey = elements_text(ys@, ys@.len() as int);
                assert(ta == seq!['['] + ex + c);
                assert(tb == seq!['['] + ey + c);
                assert(ex + c + r1 =~= whole.subrange(1, whole.len() as int));
                assert(ey + c + r2 =~= (tb + r2).subrange(1, whole.len() as int));
                assert forall|i: int| 0 <= i < xs@.len() implies reads_back(#[trigger] xs@[i]) && value_canonical(
                    xs@[i],
                ) by {
                    assert(key_exact(xs@[i]));
                    lemma_exact_canonical(xs@[i]);
                }
                assert forall|j: int| 0 <= j < ys@.len() implies value_canonical(#[trigger] ys@[j]) by {}
                lemma_items_read_back(xs@, ys@, r1, r2);
                assert(ta =~= tb);
            }
        },
        JsonValue::Object(_) => {
            if b is Object {
                lemma_meets_object(a, b, r1, r2);
            }
        },
        JsonValue::String(x) => {
            if let JsonValue::String(y) = b {
                let q = seq!['"'];
                assert(ta == q + escape_str(x@) + q);
                assert(tb == q + escape_str(y@) + q);
                assert(escape_str(x@) + q + r1 =~= whole.subrange(1, whole.len() as int));
                assert(escape_str(y@) + q + r2 =~= (tb + r2).subrange(1, whole.len() as int));
                lemma_string_unique(x@, y@, r1, r2);
            }
        },
        _ => {
            lemma_scalar_text_plain(a);
            lemma_scalar_text_plain(b);
            if ta.len() < tb.len() {
                assert(whole[ta.len() as int] == r1[0]);
                assert((tb + r2)[ta.len() as int] == tb[ta.len() as int]);
            } else if tb.len() < ta.len() {
                assert((tb + r2)[tb.len() as int] == r2[0]);
                assert(whole[tb.len() as int] == ta[tb.len() as int]);
            }
            assert(ta.len() == tb.len());
            assert forall|i: int| 0 <= i < ta.len() implies ta[i] == tb[i] by {
                assert(whole[i] == ta[i]);
                assert((tb + r2)[i] == tb[i]);
            }
            assert(ta =~= tb);
            assert(r1 =~= whole.subrange(ta.len() as int, whole.len() as int));
            assert(r2 =~= (tb + r2).subrange(tb.len() as int, whole.len() as int));
            assert(value_key_text(a) =~= value_key_text(b));
            lemma_scalar_key_matches(b, a);
        },
    }
}

/// A value with an exact key reads back from its text.
proof fn lemma_reads_back(a: JsonValue)
    requires
        key_exact(a),
    ensures
        reads_back(a),
    decreases a,
{
    match a {
        JsonValue::Array(xs) => {
            assert forall|i: int| 0 <= i < xs@.len() implies reads_back(#[trigger] xs@[i]) by {
                assert(key_exact(xs@[i]));
                lemma_reads_back(xs@[i]);
            }
        },
        JsonValue::Object(m) => {
            assert forall|i: int| #![trigger m.entries@[i]] 0 <= i < m.entries@.len() implies reads_back(
                m.entries@[i].1,
            ) by {
                assert(key_exact(m.entries@[i].1));
                lemma_reads_back(m.entries@[i].1);
            }
        },
        _ => {},
    }
    assert forall|b: JsonValue, r1: Seq<char>, r2: Seq<char>| #[trigger] text_meets(a, b, r1, r2) implies text_agrees(
        a,
        b,
        r1,
        r2,
    ) by {
        lemma_meets_agree(a, b, r1, r2);
    }
}

/// A value in canonical form equal (either way round) to one with an exact
/// key has its text.
proof fn lemma_eq_same_text(v: JsonValue, w: JsonValue)
    requires
        key_exact(w),
        value_canonical(v),
        json_eq(v, w, EqMode::Value) || json_eq(w, v, EqMode::Value),
    ensures
        json_text(v) == json_text(w),
    decreases w,
{
    lemma_json_eq_unfold(v, w, EqMode::Value);
    lemma_json_eq_unfold(w, v, EqMode::Value);
    match w {
        JsonValue::Array(ws) => {
            if let JsonValue::Array(vs) = v {
                assert forall|i: int| 0 <= i < vs@.len() implies json_text(#[trigger] vs@[i]) == json_text(ws@[i]) by {
                    assert(key_exact(ws@[i]));
                    assert(value_canonical(vs@[i]));
                    lemma_eq_same_text(vs@[i], ws@[i]);
                }
                lemma_elements_same(vs@, ws@, vs@.len() as int);
            }
        },
        JsonValue::Object(mw) => {
            if let JsonValue::Object(mv) = v {
                let s = mv.entries@;
                let t = mw.entries@;
                lemma_ordered_key_pos(s);
                lemma_ordered_key_pos(t);
                if json_eq(v, w, EqMode::Value) {
                    assert forall|i: int| 0 <= i < s.len() implies crate::strmap::has_key(t, #[trigger] s[i].0@) by {
                        lemma_key_pos(t, s[i].0@);
                    }
                    lemma_ordered_same_keys(s, t);
                } else {
                    assert forall|i: int| 0 <= i < t.len() implies crate::strmap::has_key(s, #[trigger] t[i].0@) by {
                        lemma_key_pos(s, t[i].0@);
                    }
                    lemma_ordered_same_keys(t, s);
                }
                assert forall|i: int| 0 <= i < s.len() implies (#[trigger] s[i]).0@ == t[i].0@ && json_text(s[i].1)
                    == json_text(t[i].1) by {
                    assert(s[i].0@ == t[i].0@);
                    assert(key_pos(t, s[i].0@) == i);
                    assert(key_pos(s, t[i].0@) == i);
                    assert(key_exact(t[i].1));
                    assert(value_canonical(s[i].1));
                    lemma_eq_same_text(s[i].1, t[i].1);
                }
                lemma_members_same(s, t, s.len() as int);
            }
        },
        _ => {},
    }
}

/// Against a value with an exact key, any value in canonical form has the
/// same index key exactly when the two are equal as JSON values (either
/// way round). Floats never share a key with such a value, nor equal it.
pub proof fn lemma_key_matches_exact(v: JsonValue, w: JsonValue)
    requires
        key_exact(w),
        value_canonical(v),
    ensures
        (value_key_text(v) == value_key_text(w)) <==> json_eq(v, w, EqMode::Value),
        (value_key_text(v) == value_key_text(w)) <==> json_eq(w, v, EqMode::Value),
{
    if scalar_exact(w) {
        lemma_scalar_key_matches(v, w);
    } else {
        lemma_json_eq_unfold(v, w, EqMode::Value);
        lemma_json_eq_unfold(w, v, EqMode::Value);
        let kv = value_key_text(v);
        let kw = value_key_text(w);
        lemma_text_head(v);
        lemma_exact_canonical(w);
        lemma_text_head(w);
        match v {
            JsonValue::Array(_) | JsonValue::Object(_) => {
                if kv == kw {
                    assert(json_text(v) =~= kv.subrange(2, kv.len() as int));
                    assert(json_text(w) =~= kw.subrange(2, kw.len() as int));
                    lemma_reads_back(w);
                    assert(json_text(w) + Seq::<char>::empty() =~= json_text(v) + Seq::<char>::empty());
                    assert(text_meets(w, v, Seq::<char>::empty(), Seq::<char>::empty()));
                }
                if json_eq(v, w, EqMode::Value) || json_eq(w, v, EqMode::Value) {
                    lemma_eq_same_text(v, w);
                    assert(kv =~= kw);
                }
            },
            _ => {
                assert(kv[0] != kw[0]);
            },
        }
    }
}

/// The magnitude of an integer number (0 for a float).
pub open spec fn number_abs(n: JsonNumber) -> nat {
    match n.repr {
        NumberRepr::PosInt(x) => x as nat,
        NumberRepr::NegInt(x) => (if x < 0 { -(x as int) } else { x as int }) as nat,
        NumberRepr::Float(_) => 0,
    }
}

/// The index key of a value (`null`, `b:…`, `n:…`, `s:…`, or `j:` and the JSON text).
pub fn value_key(v: &JsonValue) -> (r: String)
    ensures
        r@ == value_key_text(*v),
{
    let mut s = String::new();
    match v {
        JsonValue::Null => {
            push_char(&mut s, 'n');
            push_char(&mut s, 'u');
            push_char(&mut s, 'l');
            push_char(&mut s, 'l');
        },
        JsonValue::Bool(b) => {
            push_char(&mut s, 'b');
            push_char(&mut s, ':');
            if *b {
                push_char(&mut s, 't');
                push_char(&mut s, 'r');
                push_char(&mut s, 'u');
                push_char(&mut s, 'e');
            } else {
                push_char(&mut s, 'f');
                push_char(&mut s, 'a');
                push_char(&mut s, 'l');
                push_char(&mut s, 's');
                push_char(&mut s, 'e');
            }
        },
        JsonValue::Number(n) => {
            push_char(&mut s, 'n');
            push_char(&mut s, ':');
            push_number_text(&mut s, n);
        },
        JsonValue::String(t) => {
            push_char(&mut s, 's');
            push_char(&mut s, ':');
            s.append(t.as_str());
        },
        _ => {
            push_char(&mut s, 'j');
            push_char(&mut s, ':');
            push_json_text(&mut s, v);
        },
    }
    assert(s@ =~= value_key_text(*v));
    s
}

/// Compares two numbers under `mode`.
pub fn number_equal(a: &JsonNumber, b: &JsonNumber, mode: EqMode) -> (r: bool)
    ensures
        r == number_eq(*a, *b, mode),
{
    match (&a.repr, &b.repr) {
        (NumberRepr::PosInt(x), NumberRepr::PosInt(y)) => *x == *y,
        (NumberRepr::NegInt(x), NumberRepr::NegInt(y)) => *x == *y,
        (NumberRepr::Float(x), NumberRepr::Float(y)) => match mode {
            EqMode::Value => a.order_key == b.order_key,
            EqMode::Key => *x == *y,
            EqMode::Same => *x == *y && a.order_key == b.order_key,
        },
        _ => false,
    }
}

/// Compares two documents under `mode`.
#[verifier::loop_isolation(false)]
pub fn json_equal(a: &JsonValue, b: &JsonValue, mode: EqMode) -> (r: bool)
    ensures
        r == json_eq(*a, *b, mode),
    decreases *a,
{
    match a {
        JsonValue::Null => {
            assert(json_eq(*a, *b, mode) == (*b is Null));
            match b {
                JsonValue::Null => true,
                _ => false,
            }
        },
        JsonValue::Bool(x) => match b {
            JsonValue::Bool(y) => *x == *y,
            _ => false,
        },
        JsonValue::Number(x) => match b {
            JsonValue::Number(y) => number_equal(x, y, mode),
            _ => false,
        },
        JsonValue::String(x) => match b {
            JsonValue::String(y) => *x == *y,
            _ => false,
        },
        JsonValue::Array(xs) => match b {
            JsonValue::Array(ys) => {
                if xs.len() != ys.len() {
                    return false;
                }
                let mut i: usize = 0;
                while i < xs.len()
                    invariant
                        i <= xs@.len(),
                        *a == JsonValue::Array(*xs),
                        *b == JsonValue::Array(*ys),
                        xs@.len() == ys@.len(),
                        forall|k: int| 0 <= k < i ==> json_eq(#[trigger] xs@[k], ys@[k], mode),
                    decreases xs@.len() - i,
                {
                    proof {
                        assert(decreases_to!(*xs => xs[i as int]));
                    }
                    if !json_equal(&xs[i], &ys[i], mode) {
                        return false;
                    }
                    i = i + 1;
                }
                assert(json_eq(*a, *b, mode));
                true
            },
            _ => false,
        },
        JsonValue::Object(m) => match b {
            JsonValue::Object(n) => {
                proof {
                    StrMap::lemma_pairs_entries(m);
                    StrMap::lemma_pairs_entries(n);
                }
                if m.len() != n.len() {
                    return false;
                }
                let mlen = m.len();
                let mut i: usize = 0;
                while i < mlen
                    invariant
                        i <= m.entries@.len(),
                        mlen == m.entries@.len(),
                        *a == JsonValue::Object(*m),
                        *b == JsonValue::Object(*n),
                        m.pairs() == m.entries@,
                        n.pairs() == n.entries@,
                        m.entries@.len() == n.entries@.len(),
                        keys_distinct(n.entries@),
                        forall|k: int|
                            0 <= k < i ==> key_pos(n.entries@, #[trigger] m.entries@[k].0@) >= 0
                                && json_eq(
                                m.entries@[k].1,
                                n.entries@[key_pos(n.entries@, m.entries@[k].0@)].1,
                                mode,
                            ),
                    decreases m.entries@.len() - i,
                {
                    proof { lemma_key_pos(n.entries@, m.entries@[i as int].0@); }
                    match n.find(m.key_at(i).as_str()) {
                        Some(j) => {
                            proof {
                                assert(decreases_to!(m.entries => m.entries[i as int]));
                            }
                            if !json_equal(m.value_at(i), n.value_at(j), mode) {
                                return false;
                            }
                        },
                        None => {
                            return false;
                        },
                    }
                    i = i + 1;
                }
                assert(json_eq(*a, *b, mode));
                true
            },
            _ => false,
        },
    }
}

/// A copy of a number.
pub fn number_clone(n: &JsonNumber) -> (r: JsonNumber)
    ensures
        number_eq(r, *n, EqMode::Same),
        r.order_key == n.order_key,
{
    let repr = match &n.repr {
        NumberRepr::PosInt(x) => NumberRepr::PosInt(*x),
        NumberRepr::NegInt(x) => NumberRepr::NegInt(*x),
        NumberRepr::Float(t) => NumberRepr::Float(t.clone()),
    };
    JsonNumber { repr, order_key: n.order_key }
}

/// A deep copy of a document: equal to it in every representation detail.
#[verifier::loop_isolation(false)]
pub fn json_clone(v: &JsonValue) -> (r: JsonValue)
    ensures
        json_eq(r, *v, EqMode::Same),
    decreases *v,
{
    match v {
        JsonValue::Null => JsonValue::Null,
        JsonValue::Bool(b) => JsonValue::Bool(*b),
        JsonValue::Number(n) => JsonValue::Number(number_clone(n)),
        JsonValue::String(t) => JsonValue::String(t.clone()),
        JsonValue::Array(xs) => {
            let mut out: Vec<JsonValue> = Vec::new();
            let mut i: usize = 0;
            while i < xs.len()
                invariant
                    i <= xs@.len(),
                    *v == JsonValue::Array(*xs),
                    out@.len() == i,
                    forall|k: int| 0 <= k < i ==> json_eq(#[trigger] out@[k], xs@[k], EqMode::Same),
                decreases xs@.len() - i,
            {
                proof {
                    assert(decreases_to!(*xs => xs[i as int]));
                }
                let c = json_clone(&xs[i]);
                out.push(c);
                i = i + 1;
            }
            let r = JsonValue::Array(out);
            assert(json_eq(r, *v, EqMode::Same));
            r
        },
        JsonValue::Object(m) => {
            proof {
                StrMap::lemma_pairs_entries(m);
            }
            let n = m.len();
            let mut out: Vec<(String, JsonValue)> = Vec::new();
            let mut i: usize = 0;
            while i < n
                invariant
                    i <= n,
                    n == m.entries@.len(),
                    *v == JsonValue::Object(*m),
                    m.pairs() == m.entries@,
                    keys_distinct(m.entries@),
                    out@.len() == i,
                    forall|k: int| 0 <= k < i ==> #[trigger] out@[k].0 == m.entries@[k].0,
                    forall|k: int| 0 <= k < i ==> json_eq(#[trigger] out@[k].1, m.entries@[k].1, EqMode::Same),
                decreases n - i,
            {
                proof {
                    assert(decreases_to!(m.entries => m.entries[i as int]));
                }
                let k = m.key_at(i).clone();
                let c = json_clone(m.value_at(i));
                out.push((k, c));
                i = i + 1;
            }
            proof {
                assert forall|a: int, b: int| 0 <= a < b < out@.len() implies out@[a].0@ != out@[b].0@ by {
                    assert(m.entries@[a].0@ != m.entries@[b].0@);
                }
            }
            let ghost oe = out@;
            let r = StrMap::from_entries(out);
            proof {
                StrMap::lemma_pairs_entries(&r);
                assert forall|k: int| 0 <= k < r.entries@.len() implies key_pos(m.entries@, #[trigger] r.entries@[k].0@) >= 0
                    && json_eq(
                    r.entries@[k].1,
                    m.entries@[key_pos(m.entries@, r.entries@[k].0@)].1,
                    EqMode::Same,
                ) by {
                    lemma_key_pos(m.entries@, r.entries@[k].0@);
                    assert(m.entries@[k].0@ == r.entries@[k].0@);
                }
            }
            let res = JsonValue::Object(r);
            assert(json_eq(res, *v, EqMode::Same));
            res
        },
    }
}

} // verus!
