//! Decimal text for unsigned integers, and character access to strings.

use vstd::prelude::*;

verus! {

/// The ASCII digit for a value below ten.
pub open spec fn digit_char(d: nat) -> char {
    if d == 0 {
        '0'
    } else if d == 1 {
        '1'
    } else if d == 2 {
        '2'
    } else if d == 3 {
        '3'
    } else if d == 4 {
        '4'
    } else if d == 5 {
        '5'
    } else if d == 6 {
        '6'
    } else if d == 7 {
        '7'
    } else if d == 8 {
        '8'
    } else {
        '9'
    }
}

/// Shortest decimal rendering of a natural number (no sign, no leading zeros).
pub open spec fn decimal(n: nat) -> Seq<char>
    decreases n,
{
    if n < 10 {
        seq![digit_char(n)]
    } else {
        decimal(n / 10).push(digit_char(n % 10))
    }
}

/// The numeric value of an ASCII digit character.
pub open spec fn digit_value(c: char) -> nat {
    ((c as int) - ('0' as int)) as nat
}

pub open spec fn is_digit(c: char) -> bool {
    '0' <= c && c <= '9'
}

pub open spec fn all_digits(s: Seq<char>) -> bool {
    forall|i: int| 0 <= i < s.len() ==> is_digit(#[trigger] s[i])
}

/// Value of a sequence of decimal digits, most significant first.
pub open spec fn digits_value(s: Seq<char>) -> nat
    decreases s.len(),
{
    if s.len() == 0 {
        0
    } else {
        digits_value(s.drop_last()) * 10 + digit_value(s.last())
    }
}

/// How `FromStr` for an unsigned integer type whose largest value is `max`
/// reads a string: an optional leading `+`, then at least one ASCII digit,
/// and a value that fits.
pub open spec fn parse_unsigned(s: Seq<char>, max: nat) -> Option<nat> {
    let d = if s.len() > 0 && s[0] == '+' {
        s.drop_first()
    } else {
        s
    };
    if d.len() == 0 || !all_digits(d) {
        None
    } else if digits_value(d) > max {
        None
    } else {
        Some(digits_value(d))
    }
}

proof fn lemma_digit_char_facts(d: nat)
    requires
        d < 10,
    ensures
        is_digit(digit_char(d)),
        digit_value(digit_char(d)) == d,
{
}

/// The decimal rendering is made of digits and reads back as the number.
pub proof fn lemma_decimal_roundtrip(n: nat)
    ensures
        decimal(n).len() > 0,
        all_digits(decimal(n)),
        digits_value(decimal(n)) == n,
        decimal(n)[0] != '+',
    decreases n,
{
    if n < 10 {
        lemma_digit_char_facts(n);
        let s = decimal(n);
        assert(s.drop_last() =~= Seq::<char>::empty());
        assert(digits_value(s.drop_last()) == 0);
    } else {
        lemma_decimal_roundtrip(n / 10);
        lemma_digit_char_facts(n % 10);
        let s = decimal(n);
        assert(s.drop_last() =~= decimal(n / 10));
        assert(s.last() == digit_char(n % 10));
        assert((n / 10) * 10 + n % 10 == n) by (nonlinear_arith);
        assert forall|i: int| 0 <= i < s.len() implies is_digit(#[trigger] s[i]) by {
            if i < s.len() - 1 {
                assert(s[i] == decimal(n / 10)[i]);
            }
        }
    }
}

/// The decimal rendering never contains a colon.
pub proof fn lemma_decimal_no_colon(n: nat)
    ensures
        !decimal(n).contains(':'),
{
    lemma_decimal_roundtrip(n);
    let s = decimal(n);
    if s.contains(':') {
        let i = choose|i: int| 0 <= i < s.len() && s[i] == ':';
        assert(is_digit(s[i]));
    }
}

/// Reading more digits never lowers the value.
pub proof fn lemma_digits_value_prefix(s: Seq<char>, k: int)
    requires
        0 <= k <= s.len(),
        all_digits(s),
    ensures
        digits_value(s.take(k)) <= digits_value(s),
    decreases s.len(),
{
    if k < s.len() {
        let t = s.drop_last();
        assert(all_digits(t)) by {
            assert forall|i: int| 0 <= i < t.len() implies is_digit(#[trigger] t[i]) by {
                assert(t[i] == s[i]);
            }
        }
        lemma_digits_value_prefix(t, k);
        assert(t.take(k) =~= s.take(k));
        assert(digits_value(s) == digits_value(t) * 10 + digit_value(s.last()));
    } else {
        assert(s.take(k) =~= s);
    }
}

/// Extending a digit prefix by one digit.
pub proof fn lemma_digits_value_step(s: Seq<char>, i: int)
    requires
        0 <= i < s.len(),
    ensures
        digits_value(s.take(i + 1)) == digits_value(s.take(i)) * 10 + digit_value(s[i]),
{
    assert(s.take(i + 1).drop_last() =~= s.take(i));
}

/// Reads an unsigned decimal the way `FromStr` does for an integer type
/// whose largest value is `max`.
pub fn parse_unsigned_chars(d: &Vec<char>, max: u64) -> (r: Option<u64>)
    ensures
        match r {
            Some(v) => parse_unsigned(d@, max as nat) == Some(v as nat),
            None => parse_unsigned(d@, max as nat) is None,
        },
{
    let len = d.len();
    let start: usize = if len > 0 && d[0] == '+' { 1 } else { 0 };
    let ghost body = if d@.len() > 0 && d@[0] == '+' { d@.drop_first() } else { d@ };
    assert(body =~= d@.subrange(start as int, len as int));
    if start == len {
        return None;
    }
    let mut acc: u64 = 0;
    let mut i: usize = start;
    while i < len
        invariant
            start <= i <= len,
            len == d@.len(),
            body =~= d@.subrange(start as int, len as int),
            body == (if d@.len() > 0 && d@[0] == '+' { d@.drop_first() } else { d@ }),
            all_digits(body.take(i - start)),
            acc as nat == digits_value(body.take(i - start)),
            acc <= max,
        decreases len - i,
    {
        let c = d[i];
        if !('0' <= c && c <= '9') {
            assert(body[i - start] == c);
            assert(!is_digit(body[i - start]));
            assert(!all_digits(body));
            return None;
        }
        let dv = (c as u32 - '0' as u32) as u64;
        proof {
            lemma_digits_value_step(body, (i - start) as int);
            assert(body[i - start] == c);
        }
        if dv > max || acc > (max - dv) / 10 {
            proof {
                if dv <= max {
                    assert(acc * 10 + dv > max) by (nonlinear_arith)
                        requires
                            acc > (max - dv) / 10,
                            dv <= max,
                    ;
                }
                assert(all_digits(body.take(i - start + 1))) by {
                    let t = body.take(i - start + 1);
                    assert forall|j: int| 0 <= j < t.len() implies is_digit(#[trigger] t[j]) by {
                        if j < i - start {
                            assert(t[j] == body.take(i - start)[j]);
                        }
                    }
                }
                if all_digits(body) {
                    lemma_digits_value_prefix(body, (i - start + 1) as int);
                }
            }
            return None;
        }
        assert(acc * 10 + dv <= max) by (nonlinear_arith)
            requires
                acc <= (max - dv) / 10,
                dv < 10,
        ;
        acc = acc * 10 + dv;
        proof {
            let t = body.take(i - start + 1);
            assert forall|j: int| 0 <= j < t.len() implies is_digit(#[trigger] t[j]) by {
                if j < i - start {
                    assert(t[j] == body.take(i - start)[j]);
                }
            }
        }
        i = i + 1;
    }
    assert(body.take(len - start) =~= body);
    Some(acc)
}

/// How `str::split(':')` cuts a string: always one piece more than there are colons.
pub open spec fn split_colon(s: Seq<char>) -> Seq<Seq<char>>
    decreases s.len(),
{
    if s.len() == 0 {
        seq![Seq::<char>::empty()]
    } else {
        let rest = split_colon(s.drop_last());
        if s.last() == ':' {
            rest.push(Seq::<char>::empty())
        } else {
            rest.update(rest.len() - 1, rest.last().push(s.last()))
        }
    }
}

/// The pieces are never empty in number.
pub proof fn lemma_split_colon_nonempty(s: Seq<char>)
    ensures
        split_colon(s).len() >= 1,
    decreases s.len(),
{
    if s.len() > 0 {
        lemma_split_colon_nonempty(s.drop_last());
    }
}

/// Splitting text that holds no colon, after a prefix, extends the prefix's last piece.
pub proof fn lemma_split_colon_append_plain(a: Seq<char>, b: Seq<char>)
    requires
        !b.contains(':'),
    ensures
        split_colon(a + b) == split_colon(a).update(
            split_colon(a).len() - 1,
            split_colon(a).last() + b,
        ),
    decreases b.len(),
{
    lemma_split_colon_nonempty(a);
    if b.len() == 0 {
        assert(a + b =~= a);
        assert(split_colon(a).last() + b =~= split_colon(a).last());
        assert(split_colon(a).update(split_colon(a).len() - 1, split_colon(a).last())
            =~= split_colon(a));
    } else {
        let b0 = b.drop_last();
        assert(!b0.contains(':')) by {
            if b0.contains(':') {
                let i = choose|i: int| 0 <= i < b0.len() && b0[i] == ':';
                assert(b[i] == ':');
            }
        }
        lemma_split_colon_append_plain(a, b0);
        assert((a + b).drop_last() =~= a + b0);
        assert(b.last() != ':') by {
            if b.last() == ':' {
                assert(b.contains(':'));
            }
        }
        assert((a + b).last() == b.last());
        lemma_split_colon_nonempty(a + b0);
        assert(split_colon(a).last() + b0 + seq![b.last()] =~= split_colon(a).last() + b);
        let rest = split_colon(a + b0);
        let n = split_colon(a).len();
        assert(split_colon(a + b) == rest.update(rest.len() - 1, rest.last().push(b.last())));
        assert(rest.len() == n);
        assert(rest.last() == split_colon(a).last() + b0);
        assert((split_colon(a).last() + b0).push(b.last()) =~= split_colon(a).last() + b);
        assert(split_colon(a + b) =~= split_colon(a).update(
            split_colon(a).len() - 1,
            split_colon(a).last() + b,
        ));
    }
}

/// Splitting after a trailing colon opens a new, empty piece.
pub proof fn lemma_split_colon_append_colon(a: Seq<char>)
    ensures
        split_colon(a.push(':')) == split_colon(a).push(Seq::<char>::empty()),
{
    assert(a.push(':').drop_last() =~= a);
}

/// Cuts a character sequence at every colon.
pub fn split_colon_chars(v: &Vec<char>) -> (parts: Vec<Vec<char>>)
    ensures
        parts@.len() == split_colon(v@).len(),
        forall|i: int| 0 <= i < parts@.len() ==> #[trigger] parts@[i]@ == split_colon(v@)[i],
{
    let mut parts: Vec<Vec<char>> = Vec::new();
    parts.push(Vec::new());
    let mut i: usize = 0;
    assert(v@.take(0) =~= Seq::<char>::empty());
    while i < v.len()
        invariant
            i <= v@.len(),
            parts@.len() == split_colon(v@.take(i as int)).len(),
            parts@.len() >= 1,
            forall|j: int| 0 <= j < parts@.len() ==> #[trigger] parts@[j]@ == split_colon(
                v@.take(i as int),
            )[j],
        decreases v@.len() - i,
    {
        let c = v[i];
        let ghost prev = v@.take(i as int);
        assert(v@.take(i + 1) =~= prev.push(c));
        assert(v@.take(i + 1).drop_last() =~= prev);
        if c == ':' {
            parts.push(Vec::new());
        } else {
            let mut last = parts.pop().unwrap();
            last.push(c);
            parts.push(last);
        }
        i = i + 1;
    }
    assert(v@.take(v@.len() as int) =~= v@);
    parts
}

/// A string literal holding one digit.
fn digit_str(d: u64) -> (r: &'static str)
    requires
        d < 10,
    ensures
        r@ == seq![digit_char(d as nat)],
{
    if d == 0 {
        proof { reveal_strlit("0"); }
        "0"
    } else if d == 1 {
        proof { reveal_strlit("1"); }
        "1"
    } else if d == 2 {
        proof { reveal_strlit("2"); }
        "2"
    } else if d == 3 {
        proof { reveal_strlit("3"); }
        "3"
    } else if d == 4 {
        proof { reveal_strlit("4"); }
        "4"
    } else if d == 5 {
        proof { reveal_strlit("5"); }
        "5"
    } else if d == 6 {
        proof { reveal_strlit("6"); }
        "6"
    } else if d == 7 {
        proof { reveal_strlit("7"); }
        "7"
    } else if d == 8 {
        proof { reveal_strlit("8"); }
        "8"
    } else {
        proof { reveal_strlit("9"); }
        "9"
    }
}

/// Appends the decimal rendering of `n` to `s`.
pub fn push_decimal(s: &mut String, n: u64)
    ensures
        final(s)@ == old(s)@ + decimal(n as nat),
    decreases n,
{
    if n >= 10 {
        push_decimal(s, n / 10);
    }
    s.append(digit_str(n % 10));
    proof {
        if n >= 10 {
            assert(decimal(n as nat) == decimal((n / 10) as nat).push(digit_char((n % 10) as nat)));
        }
    }
}

/// The decimal rendering of `n` as a fresh string.
pub fn decimal_string(n: u64) -> (r: String)
    ensures
        r@ == decimal(n as nat),
{
    let mut s = String::new();
    push_decimal(&mut s, n);
    assert(s@ =~= decimal(n as nat));
    s
}

/// The characters of a string, in order.
pub fn str_chars(s: &str) -> (v: Vec<char>)
    ensures
        v@ == s@,
{
    let mut v: Vec<char> = Vec::new();
    for c in it: s.chars()
        invariant
            v@ == it.seq().take(it.index() as int),
            it.seq() == s@,
    {
        v.push(c);
    }
    v
}

} // verus!

verus! {

/// Equality of two character sequences.
pub fn chars_eq(a: &Vec<char>, b: &Vec<char>) -> (r: bool)
    ensures
        r == (a@ == b@),
{
    if a.len() != b.len() {
        return false;
    }
    let mut i: usize = 0;
    while i < a.len()
        invariant
            i <= a@.len(),
            a@.len() == b@.len(),
            forall|j: int| 0 <= j < i ==> a@[j] == b@[j],
        decreases a@.len() - i,
    {
        if a[i] != b[i] {
            return false;
        }
        i = i + 1;
    }
    assert(a@ =~= b@);
    true
}

/// Equality of two strings, character by character.
pub fn str_eq(a: &str, b: &str) -> (r: bool)
    ensures
        r == (a@ == b@),
{
    let ca = str_chars(a);
    let cb = str_chars(b);
    chars_eq(&ca, &cb)
}

} // verus!

verus! {

/// Appends one character to a string.
#[verifier::external_body]
pub(crate) fn push_char(s: &mut String, c: char)
    ensures
        final(s)@ == old(s)@.push(c),
{
    s.push(c);
}

} // verus!
