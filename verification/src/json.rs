//! JSON values, by the `serde_json` crate, as far as the tool protocol needs them.
//!
//! A value is spoken of by its compact text. The text holds all that can be read out of a value, so
//! whatever is read out of one is a function of its text.
use serde_json::Value;
use vstd::prelude::*;

verus! {

/// A JSON value.
#[verifier::external_type_specification]
#[verifier::external_body]
pub struct ExValue(serde_json::Value);

/// The compact text of a value.
pub uninterp spec fn json_text(v: Value) -> Seq<char>;

/// The compact text of the value that `line` is JSON text of; none where it is no JSON text.
pub uninterp spec fn json_parsed(line: Seq<char>) -> Option<Seq<char>>;

/// The text of the member `key` of the value with the given text; none where the value is no
/// object or has no such member.
pub uninterp spec fn json_field(text: Seq<char>, key: Seq<char>) -> Option<Seq<char>>;

/// A hexadecimal digit.
pub open spec fn hex_digit(d: u32) -> char {
    if d < 10 {
        (48 + d) as char
    } else {
        (87 + d) as char
    }
}

/// A character within a string: quotation marks, backslashes and control characters are escaped.
pub open spec fn escaped(c: char) -> Seq<char> {
    let n = c as u32;
    if c == '"' || c == '\\' {
        seq!['\\', c]
    } else if n == 8 {
        seq!['\\', 'b']
    } else if n == 9 {
        seq!['\\', 't']
    } else if n == 10 {
        seq!['\\', 'n']
    } else if n == 12 {
        seq!['\\', 'f']
    } else if n == 13 {
        seq!['\\', 'r']
    } else if n < 32 {
        seq!['\\', 'u', '0', '0', hex_digit(n / 16), hex_digit(n % 16)]
    } else {
        seq![c]
    }
}

/// The characters of a string, each as it is written.
pub open spec fn escaped_all(s: Seq<char>) -> Seq<char>
    decreases s.len(),
{
    if s.len() == 0 {
        Seq::empty()
    } else {
        escaped(s[0]) + escaped_all(s.drop_first())
    }
}

/// The text of a string: in quotation marks, with escapes where they are needed.
pub open spec fn json_quoted(s: Seq<char>) -> Seq<char> {
    seq!['"'] + escaped_all(s) + seq!['"']
}

/// The decimal digits of `n`.
pub open spec fn decimal(n: nat) -> Seq<char>
    decreases n,
{
    if n < 10 {
        seq![(48 + n) as char]
    } else {
        decimal(n / 10).push((48 + n % 10) as char)
    }
}

/// The characters of the string with the given text; none where it is the text of another value.
pub open spec fn json_string(text: Seq<char>) -> Option<Seq<char>> {
    if exists|s: Seq<char>| text == #[trigger] json_quoted(s) {
        Some(choose|s: Seq<char>| text == #[trigger] json_quoted(s))
    } else {
        None
    }
}

/// The number with the given text; none where it is the text of anything but a whole number from
/// 0 to the largest one of 64 bits.
pub open spec fn json_natural(text: Seq<char>) -> Option<u64> {
    if exists|n: u64| text == #[trigger] decimal(n as nat) {
        Some(choose|n: u64| text == #[trigger] decimal(n as nat))
    } else {
        None
    }
}

pub open spec fn integer_text(n: int) -> Seq<char> {
    if n < 0 {
        seq!['-'] + decimal((-n) as nat)
    } else {
        decimal(n as nat)
    }
}

/// The parts, with commas between them.
pub open spec fn joined(parts: Seq<Seq<char>>) -> Seq<char>
    decreases parts.len(),
{
    if parts.len() == 0 {
        Seq::empty()
    } else if parts.len() == 1 {
        parts[0]
    } else {
        joined(parts.drop_last()) + seq![','] + parts.last()
    }
}

pub open spec fn list_text(items: Seq<Seq<char>>) -> Seq<char> {
    seq!['['] + joined(items) + seq![']']
}

/// The text of an object with the given members, in this order.
pub open spec fn object_text(members: Seq<(Seq<char>, Seq<char>)>) -> Seq<char> {
    seq!['{'] + joined(
        Seq::new(
            members.len(),
            |i: int| json_quoted(members[i].0) + seq![':'] + members[i].1,
        ),
    ) + seq!['}']
}

pub open spec fn null_text() -> Seq<char> {
    seq!['n', 'u', 'l', 'l']
}

pub open spec fn boolean_text(b: bool) -> Seq<char> {
    if b {
        seq!['t', 'r', 'u', 'e']
    } else {
        seq!['f', 'a', 'l', 's', 'e']
    }
}

/// Whether `a` comes before `b` in the order of strings: at the first place where they differ it
/// has the lesser character, or ends.
pub open spec fn precedes(a: Seq<char>, b: Seq<char>) -> bool {
    exists|i: int|
        {
            &&& 0 <= i <= a.len()
            &&& i < b.len()
            &&& #[trigger] a.take(i) == b.take(i)
            &&& i == a.len() || (a[i] as u32) < (b[i] as u32)
        }
}

pub open spec fn value_texts(values: Seq<Value>) -> Seq<Seq<char>> {
    Seq::new(values.len(), |i: int| json_text(values[i]))
}

pub open spec fn member_texts(members: Seq<(String, Value)>) -> Seq<(Seq<char>, Seq<char>)> {
    Seq::new(members.len(), |i: int| (members[i].0@, json_text(members[i].1)))
}

/// Calls `serde_json::from_str` for a `Value`. Claimed of it: whether it succeeds, and which value
/// comes of it, depend on the line alone.
#[verifier::external_body]
pub(crate) fn parse(line: &str) -> (r: Option<Value>)
    ensures
        json_parsed(line@) == match r {
            Some(v) => Some(json_text(v)),
            None => None,
        },
{
    serde_json::from_str(line).ok()
}

/// Calls `Value::to_string`. Claimed of it: it returns the compact text of the value, which this
/// call defines.
#[verifier::external_body]
pub(crate) fn print(v: &Value) -> (r: String)
    ensures
        r@ == json_text(*v),
{
    v.to_string()
}

/// Calls `Value::get` with a string. Claimed of it: what it returns depends on the value and the
/// key alone.
#[verifier::external_body]
pub(crate) fn field<'a>(v: &'a Value, key: &str) -> (r: Option<&'a Value>)
    ensures
        json_field(json_text(*v), key@) == match r {
            Some(found) => Some(json_text(*found)),
            None => None,
        },
{
    v.get(key)
}

/// Calls `Value::as_str`. Claimed of it: it returns the characters of a string, and nothing for any
/// other value.
#[verifier::external_body]
pub(crate) fn as_string(v: &Value) -> (r: Option<String>)
    ensures
        json_string(json_text(*v)) == match r {
            Some(s) => Some(s@),
            None => None,
        },
{
    v.as_str().map(String::from)
}

/// Calls `Value::as_u64`. Claimed of it: it returns the number where the value is a whole number
/// from 0 to the largest one of 64 bits, and nothing for any other value.
#[verifier::external_body]
pub(crate) fn as_natural(v: &Value) -> (r: Option<u64>)
    ensures
        r == json_natural(json_text(*v)),
{
    v.as_u64()
}

/// Calls `Value::clone`. Claimed of it: the copy has the same text.
#[verifier::external_body]
pub(crate) fn copy(v: &Value) -> (r: Value)
    ensures
        json_text(r) == json_text(*v),
{
    v.clone()
}

/// Calls `Value::default`. Claimed of it: the value is null.
#[verifier::external_body]
pub(crate) fn null() -> (r: Value)
    ensures
        json_text(r) == null_text(),
{
    Value::default()
}

/// Calls `Value::from` for a string. Claimed of it: the text of the value is the characters in
/// quotation marks and with escapes.
#[verifier::external_body]
pub(crate) fn string(s: &str) -> (r: Value)
    ensures
        json_text(r) == json_quoted(s@),
{
    Value::from(s)
}

/// Calls `Value::from` for a boolean. Claimed of it: the text of the value.
#[verifier::external_body]
pub(crate) fn boolean(b: bool) -> (r: Value)
    ensures
        json_text(r) == boolean_text(b),
{
    Value::from(b)
}

/// Calls `Value::from` for an unsigned number. Claimed of it: the value is written in decimal
/// digits.
#[verifier::external_body]
pub(crate) fn natural(n: u64) -> (r: Value)
    ensures
        json_text(r) == decimal(n as nat),
{
    Value::from(n)
}

/// Calls `Value::from` for a signed number. Claimed of it: the value is written in decimal digits,
/// behind a minus sign where it is negative.
#[verifier::external_body]
pub(crate) fn integer(n: i64) -> (r: Value)
    ensures
        json_text(r) == integer_text(n as int),
{
    Value::from(n)
}

/// Calls `Value::from` for a vector of values. Claimed of it: the text of the value is that of the
/// items in their order, with commas between them and in square brackets.
#[verifier::external_body]
pub(crate) fn list(items: Vec<Value>) -> (r: Value)
    ensures
        json_text(r) == list_text(value_texts(items@)),
{
    Value::from(items)
}

/// Calls `serde_json::Map::from_iter`. Claimed of it, for members in the order of their keys and
/// without repetitions: the text of the object is that of the members in this order, with commas
/// between them and in braces, each member is found by its key, and no other key is.
#[verifier::external_body]
pub(crate) fn object(members: Vec<(String, Value)>) -> (r: Value)
    requires
        forall|i: int|
            0 <= i < members@.len() - 1 ==> precedes(
                (#[trigger] members@[i]).0@,
                members@[i + 1].0@,
            ),
    ensures
        json_text(r) == object_text(member_texts(members@)),
        forall|i: int|
            0 <= i < members@.len() ==> json_field(
                json_text(r),
                (#[trigger] members@[i]).0@,
            ) == Some(json_text(members@[i].1)),
        forall|key: Seq<char>|
            (forall|i: int| 0 <= i < members@.len() ==> (#[trigger] members@[i]).0@ != key)
                ==> #[trigger] json_field(json_text(r), key) is None,
{
    Value::Object(members.into_iter().collect())
}

/// Numbers with the same digits are equal.
pub proof fn lemma_decimal_injective(a: nat, b: nat)
    requires
        decimal(a) == decimal(b),
    ensures
        a == b,
    decreases a + b,
{
    lemma_decimal_len(a / 10);
    lemma_decimal_len(b / 10);
    assert(decimal(a).last() == decimal(b).last());
    assert(decimal(a).last() == (48 + a % 10) as char);
    assert(decimal(b).last() == (48 + b % 10) as char);
    assert(a % 10 == b % 10);
    if a < 10 {
        assert(decimal(a).len() == 1);
        assert(b < 10);
    } else {
        assert(decimal(a).len() >= 2);
        assert(b >= 10);
        assert(decimal(a).drop_last() =~= decimal(a / 10));
        assert(decimal(b).drop_last() =~= decimal(b / 10));
        lemma_decimal_injective(a / 10, b / 10);
    }
}

proof fn lemma_decimal_len(a: nat)
    ensures
        decimal(a).len() >= 1,
    decreases a,
{
    if a >= 10 {
        lemma_decimal_len(a / 10);
    }
}

/// A number is read out of its digits.
pub proof fn lemma_natural_of_decimal(n: u64)
    ensures
        json_natural(decimal(n as nat)) == Some(n),
{
    let m = json_natural(decimal(n as nat))->0;
    assert(decimal(m as nat) == decimal(n as nat));
    lemma_decimal_injective(m as nat, n as nat);
}

/// No escaped character starts as another one does.
proof fn lemma_escaped_prefix(c: char, x: Seq<char>, d: char, y: Seq<char>)
    requires
        escaped(c) + x == escaped(d) + y,
    ensures
        c == d,
        x == y,
{
    let a = escaped(c) + x;
    let b = escaped(d) + y;
    let ec = escaped(c);
    let ed = escaped(d);
    assert(a[0] == ec[0] && b[0] == ed[0]);
    if ec.len() >= 2 && ed.len() >= 2 {
        assert(a[1] == ec[1] && b[1] == ed[1]);
        if ec.len() == 6 && ed.len() == 6 {
            assert(a[4] == ec[4] && b[4] == ed[4]);
            assert(a[5] == ec[5] && b[5] == ed[5]);
            let m = c as u32;
            let n = d as u32;
            assert(m / 16 == n / 16);
            assert(m % 16 == n % 16);
            assert(m == n);
        }
    }
    assert(c == d);
    assert(a.skip(ec.len() as int) =~= x);
    assert(b.skip(ed.len() as int) =~= y);
}

proof fn lemma_escaped_injective(a: Seq<char>, b: Seq<char>)
    requires
        escaped_all(a) == escaped_all(b),
    ensures
        a == b,
    decreases a.len(),
{
    if a.len() > 0 {
        assert(escaped_all(a).len() > 0);
        assert(b.len() > 0);
        lemma_escaped_prefix(
            a[0],
            escaped_all(a.drop_first()),
            b[0],
            escaped_all(b.drop_first()),
        );
        lemma_escaped_injective(a.drop_first(), b.drop_first());
        assert(a =~= seq![a[0]] + a.drop_first());
        assert(b =~= seq![b[0]] + b.drop_first());
    } else if b.len() > 0 {
        assert(escaped_all(b).len() > 0);
    } else {
        assert(a =~= b);
    }
}

/// The characters of a string are read out of its text.
pub proof fn lemma_string_of_quoted(s: Seq<char>)
    ensures
        json_string(json_quoted(s)) == Some(s),
{
    let t = json_string(json_quoted(s))->0;
    let x = json_quoted(s);
    let y = json_quoted(t);
    assert(x == y);
    assert(x.subrange(1, x.len() - 1) =~= escaped_all(s));
    assert(y.subrange(1, y.len() - 1) =~= escaped_all(t));
    lemma_escaped_injective(t, s);
}

/// The first character decides.
pub proof fn lemma_precedes(a: Seq<char>, b: Seq<char>)
    requires
        a.len() > 0,
        b.len() > 0,
        (a[0] as u32) < (b[0] as u32),
    ensures
        precedes(a, b),
{
    assert(a.take(0) =~= b.take(0));
}

/// An object with one member.
pub(crate) fn object1(
    k1: &str,
    v1: Value,
) -> (r: Value)
    ensures
        json_text(r) == object_text(
            seq![
                (k1@, json_text(v1)),
            ],
        ),
{
    let members = vec![
        (k1.to_owned(), v1),
    ];
    let ghost texts = seq![
        (k1@, json_text(v1)),
    ];
    assert(member_texts(members@) =~= texts);
    object(members)
}

/// An object with two members.
pub(crate) fn object2(
    k1: &str,
    v1: Value,
    k2: &str,
    v2: Value,
) -> (r: Value)
    requires
        precedes(k1@, k2@),
    ensures
        json_text(r) == object_text(
            seq![
                (k1@, json_text(v1)),
                (k2@, json_text(v2)),
            ],
        ),
{
    let members = vec![
        (k1.to_owned(), v1),
        (k2.to_owned(), v2),
    ];
    let ghost texts = seq![
        (k1@, json_text(v1)),
        (k2@, json_text(v2)),
    ];
    assert(member_texts(members@) =~= texts);
    object(members)
}

/// An object with three members.
pub(crate) fn object3(
    k1: &str,
    v1: Value,
    k2: &str,
    v2: Value,
    k3: &str,
    v3: Value,
) -> (r: Value)
    requires
        precedes(k1@, k2@),
        precedes(k2@, k3@),
    ensures
        json_text(r) == object_text(
            seq![
                (k1@, json_text(v1)),
                (k2@, json_text(v2)),
                (k3@, json_text(v3)),
            ],
        ),
{
    let members = vec![
        (k1.to_owned(), v1),
        (k2.to_owned(), v2),
        (k3.to_owned(), v3),
    ];
    let ghost texts = seq![
        (k1@, json_text(v1)),
        (k2@, json_text(v2)),
        (k3@, json_text(v3)),
    ];
    assert(member_texts(members@) =~= texts);
    object(members)
}

/// An object with four members.
pub(crate) fn object4(
    k1: &str,
    v1: Value,
    k2: &str,
    v2: Value,
    k3: &str,
    v3: Value,
    k4: &str,
    v4: Value,
) -> (r: Value)
    requires
        precedes(k1@, k2@),
        precedes(k2@, k3@),
        precedes(k3@, k4@),
    ensures
        json_text(r) == object_text(
            seq![
                (k1@, json_text(v1)),
                (k2@, json_text(v2)),
                (k3@, json_text(v3)),
                (k4@, json_text(v4)),
            ],
        ),
{
    let members = vec![
        (k1.to_owned(), v1),
        (k2.to_owned(), v2),
        (k3.to_owned(), v3),
        (k4.to_owned(), v4),
    ];
    let ghost texts = seq![
        (k1@, json_text(v1)),
        (k2@, json_text(v2)),
        (k3@, json_text(v3)),
        (k4@, json_text(v4)),
    ];
    assert(member_texts(members@) =~= texts);
    object(members)
}

} // verus!
