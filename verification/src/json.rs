//! JSON values as the library reads them, with their equality, their compact
//! rendering and the JSON Pointer lookup.
use vstd::prelude::*;
use vstd::string::*;

use crate::text::{chars_of, digit_char, push_char, same_text};

verus! {

/// How a JSON number was stored when its document was read: a non-negative
/// integer, a negative integer, or a finite float (`whole` when it has no
/// fractional part).
pub enum NumberKind {
    PosInt(u64),
    NegInt(i64),
    Float { whole: bool },
}

/// A JSON number.
///
/// `order` places the number's floating-point value among all finite
/// floating-point values: two numbers compare (`<`, `==`) as their `order`s do.
/// `shown` is that floating-point value as `{}` displays it, and `text` is the
/// number as it is written back into JSON.
pub struct Number {
    pub kind: NumberKind,
    pub order: i64,
    pub shown: String,
    pub text: String,
}

/// A JSON value. An object's members are kept in the order its document's map
/// yields them.
pub enum Json {
    Null,
    Bool(bool),
    Number(Number),
    Text(String),
    Array(Vec<Json>),
    Object(Vec<(String, Json)>),
}

/// The value of the first member named `key`.
pub open spec fn lookup(members: Seq<(String, Json)>, key: Seq<char>) -> Option<Json>
    decreases members.len(),
{
    if members.len() == 0 {
        None
    } else if members[0].0@ == key {
        Some(members[0].1)
    } else {
        lookup(members.drop_first(), key)
    }
}

/// The member of `members` named `key`, the first one if several are.
pub fn get<'a>(members: &'a Vec<(String, Json)>, key: &str) -> (r: Option<&'a Json>)
    ensures
        match r {
            Some(v) => lookup(members@, key@) == Some(*v),
            None => lookup(members@, key@) is None,
        },
{
    let mut i: usize = 0;
    assert(members@.skip(0) =~= members@);
    while i < members.len()
        invariant
            i <= members@.len(),
            lookup(members@, key@) == lookup(members@.skip(i as int), key@),
        decreases members@.len() - i,
    {
        assert(members@.skip(i as int).drop_first() =~= members@.skip(i + 1));
        if same_text(members[i].0.as_str(), key) {
            return Some(&members[i].1);
        }
        i = i + 1;
    }
    None
}

/// Whether a member named `key` exists.
pub open spec fn has_key(members: Seq<(String, Json)>, key: Seq<char>) -> bool {
    lookup(members, key) is Some
}

/// A number stored as a non-negative integer.
pub open spec fn as_u64(j: Json) -> Option<u64> {
    match j {
        Json::Number(n) => match n.kind {
            NumberKind::PosInt(u) => Some(u),
            _ => None,
        },
        _ => None,
    }
}

/// The place of a number in the order of floating-point values.
pub open spec fn as_order(j: Json) -> Option<i64> {
    match j {
        Json::Number(n) => Some(n.order),
        _ => None,
    }
}

/// Whether a value is an integer: stored as one, or a float without fraction.
pub open spec fn is_integer(j: Json) -> bool {
    match j {
        Json::Number(n) => match n.kind {
            NumberKind::Float { whole } => whole,
            _ => true,
        },
        _ => false,
    }
}

/// The JSON Schema name of a value's type.
pub open spec fn kind_name(j: Json) -> Seq<char> {
    match j {
        Json::Null => "null"@,
        Json::Bool(_) => "boolean"@,
        Json::Number(_) => "number"@,
        Json::Text(_) => "string"@,
        Json::Array(_) => "array"@,
        Json::Object(_) => "object"@,
    }
}

pub fn kind_name_of(j: &Json) -> (r: &'static str)
    ensures
        r@ == kind_name(*j),
{
    match j {
        Json::Null => "null",
        Json::Bool(_) => "boolean",
        Json::Number(_) => "number",
        Json::Text(_) => "string",
        Json::Array(_) => "array",
        Json::Object(_) => "object",
    }
}

/// Equality of numbers: equal integers stored alike, or equal floats.
pub open spec fn same_number(a: Number, b: Number) -> bool {
    match (a.kind, b.kind) {
        (NumberKind::PosInt(x), NumberKind::PosInt(y)) => x == y,
        (NumberKind::NegInt(x), NumberKind::NegInt(y)) => x == y,
        (NumberKind::Float { .. }, NumberKind::Float { .. }) => a.order == b.order,
        _ => false,
    }
}

/// Equality of JSON values: same type and equal contents, members compared in order.
pub open spec fn same_value(a: Json, b: Json) -> bool
    decreases a,
{
    match a {
        Json::Null => b is Null,
        Json::Bool(x) => b matches Json::Bool(y) && x == y,
        Json::Number(x) => b matches Json::Number(y) && same_number(x, y),
        Json::Text(x) => b matches Json::Text(y) && x@ == y@,
        Json::Array(x) => b matches Json::Array(y) && x@.len() == y@.len() && same_items(
            x@,
            y@,
            x@.len() as int,
        ),
        Json::Object(x) => b matches Json::Object(y) && x@.len() == y@.len() && same_members(
            x@,
            y@,
            x@.len() as int,
        ),
    }
}

/// The first `n` elements of `x` and `y` are pairwise equal.
pub open spec fn same_items(x: Seq<Json>, y: Seq<Json>, n: int) -> bool
    decreases x, n,
{
    if n <= 0 || n > x.len() {
        true
    } else {
        same_items(x, y, n - 1) && same_value(x[n - 1], y[n - 1])
    }
}

/// The first `n` members of `x` and `y` have equal names and equal values.
pub open spec fn same_members(x: Seq<(String, Json)>, y: Seq<(String, Json)>, n: int) -> bool
    decreases x, n,
{
    if n <= 0 || n > x.len() {
        true
    } else {
        same_members(x, y, n - 1) && x[n - 1].0@ == y[n - 1].0@ && same_value(x[n - 1].1, y[n - 1].1)
    }
}

proof fn lemma_same_items_at(x: Seq<Json>, y: Seq<Json>, n: int, k: int)
    requires
        0 <= k < n <= x.len(),
        same_items(x, y, n),
    ensures
        same_value(x[k], y[k]),
    decreases n,
{
    if k < n - 1 {
        lemma_same_items_at(x, y, n - 1, k);
    }
}

proof fn lemma_same_members_at(x: Seq<(String, Json)>, y: Seq<(String, Json)>, n: int, k: int)
    requires
        0 <= k < n <= x.len(),
        same_members(x, y, n),
    ensures
        x[k].0@ == y[k].0@,
        same_value(x[k].1, y[k].1),
    decreases n,
{
    if k < n - 1 {
        lemma_same_members_at(x, y, n - 1, k);
    }
}

fn number_equal(a: &Number, b: &Number) -> (r: bool)
    ensures
        r == same_number(*a, *b),
{
    match (&a.kind, &b.kind) {
        (NumberKind::PosInt(x), NumberKind::PosInt(y)) => *x == *y,
        (NumberKind::NegInt(x), NumberKind::NegInt(y)) => *x == *y,
        (NumberKind::Float { .. }, NumberKind::Float { .. }) => a.order == b.order,
        _ => false,
    }
}

/// Whether two values are equal (`==` on JSON values).
pub fn json_equal(a: &Json, b: &Json) -> (r: bool)
    ensures
        r == same_value(*a, *b),
    decreases a,
{
    match (a, b) {
        (Json::Null, Json::Null) => true,
        (Json::Bool(x), Json::Bool(y)) => *x == *y,
        (Json::Number(x), Json::Number(y)) => number_equal(x, y),
        (Json::Text(x), Json::Text(y)) => same_text(x.as_str(), y.as_str()),
        (Json::Array(x), Json::Array(y)) => {
            if x.len() != y.len() {
                return false;
            }
            let mut i: usize = 0;
            while i < x.len()
                invariant
                    *a == Json::Array(*x),
                    *b == Json::Array(*y),
                    x@.len() == y@.len(),
                    i <= x@.len(),
                    same_items(x@, y@, i as int),
                decreases x@.len() - i,
            {
                proof {
                    assert(decreases_to!(*a => a->Array_0));
                    assert(decreases_to!(a->Array_0 => x@));
                    assert(decreases_to!(x@ => x@[i as int]));
                }
                if !json_equal(&x[i], &y[i]) {
                    proof {
                        if same_items(x@, y@, x@.len() as int) {
                            lemma_same_items_at(x@, y@, x@.len() as int, i as int);
                        }
                    }
                    return false;
                }
                i = i + 1;
            }
            true
        },
        (Json::Object(x), Json::Object(y)) => {
            if x.len() != y.len() {
                return false;
            }
            let mut i: usize = 0;
            while i < x.len()
                invariant
                    *a == Json::Object(*x),
                    *b == Json::Object(*y),
                    x@.len() == y@.len(),
                    i <= x@.len(),
                    same_members(x@, y@, i as int),
                decreases x@.len() - i,
            {
                proof {
                    assert(decreases_to!(*a => a->Object_0));
                    assert(decreases_to!(a->Object_0 => x@));
                    assert(decreases_to!(x@ => x@[i as int]));
                    assert(decreases_to!(x@[i as int] => x@[i as int].1));
                }
                if !same_text(x[i].0.as_str(), y[i].0.as_str()) || !json_equal(&x[i].1, &y[i].1) {
                    proof {
                        if same_members(x@, y@, x@.len() as int) {
                            lemma_same_members_at(x@, y@, x@.len() as int, i as int);
                        }
                    }
                    return false;
                }
                i = i + 1;
            }
            true
        },
        _ => false,
    }
}

} // verus!

verus! {

/// A lower-case hexadecimal digit.
pub open spec fn hex_digit(d: nat) -> char {
    if d < 10 {
        digit_char(d)
    } else if d == 10 {
        'a'
    } else if d == 11 {
        'b'
    } else if d == 12 {
        'c'
    } else if d == 13 {
        'd'
    } else if d == 14 {
        'e'
    } else {
        'f'
    }
}

/// How one character of a string is written inside a JSON string literal:
/// quote and backslash escaped, the control characters by their short escape
/// or as `\u00xx`, everything else as itself.
pub open spec fn escape_char(c: char) -> Seq<char> {
    if c == '"' {
        seq!['\\', '"']
    } else if c == '\\' {
        seq!['\\', '\\']
    } else if c == '\x08' {
        seq!['\\', 'b']
    } else if c == '\t' {
        seq!['\\', 't']
    } else if c == '\n' {
        seq!['\\', 'n']
    } else if c == '\x0C' {
        seq!['\\', 'f']
    } else if c == '\r' {
        seq!['\\', 'r']
    } else if (c as u32) < 0x20 {
        seq!['\\', 'u', '0', '0', hex_digit((c as u32 / 16) as nat), hex_digit((c as u32 % 16) as nat)]
    } else {
        seq![c]
    }
}

/// The characters of `s`, each written as `escape_char` says.
pub open spec fn escaped(s: Seq<char>) -> Seq<char>
    decreases s.len(),
{
    if s.len() == 0 {
        seq![]
    } else {
        escaped(s.drop_last()) + escape_char(s.last())
    }
}

/// `s` as a JSON string literal.
pub open spec fn quoted(s: Seq<char>) -> Seq<char> {
    seq!['"'] + escaped(s) + seq!['"']
}

/// The compact JSON text of a value (what `{}` displays for it).
pub open spec fn render(j: Json) -> Seq<char>
    decreases j,
{
    match j {
        Json::Null => "null"@,
        Json::Bool(b) => if b { "true"@ } else { "false"@ },
        Json::Number(n) => n.text@,
        Json::Text(s) => quoted(s@),
        Json::Array(v) => "["@ + render_items(v@, v@.len() as int) + "]"@,
        Json::Object(m) => "{"@ + render_members(m@, m@.len() as int) + "}"@,
    }
}

/// The first `n` elements rendered and separated by commas.
pub open spec fn render_items(v: Seq<Json>, n: int) -> Seq<char>
    decreases v, n,
{
    if n <= 0 || n > v.len() {
        seq![]
    } else if n == 1 {
        render(v[0])
    } else {
        render_items(v, n - 1) + ","@ + render(v[n - 1])
    }
}

/// One member rendered as `"name":value`.
pub open spec fn render_member(m: (String, Json)) -> Seq<char>
    decreases m,
{
    quoted(m.0@) + ":"@ + render(m.1)
}

/// The first `n` members rendered and separated by commas.
pub open spec fn render_members(m: Seq<(String, Json)>, n: int) -> Seq<char>
    decreases m, n,
{
    if n <= 0 || n > m.len() {
        seq![]
    } else if n == 1 {
        render_member(m[0])
    } else {
        render_members(m, n - 1) + ","@ + render_member(m[n - 1])
    }
}

fn hex_of(d: u32) -> (c: char)
    requires
        d < 16,
    ensures
        c == hex_digit(d as nat),
{
    if d == 0 { '0' } else if d == 1 { '1' } else if d == 2 { '2' } else if d == 3 { '3' }
    else if d == 4 { '4' } else if d == 5 { '5' } else if d == 6 { '6' } else if d == 7 { '7' }
    else if d == 8 { '8' } else if d == 9 { '9' } else if d == 10 { 'a' } else if d == 11 { 'b' }
    else if d == 12 { 'c' } else if d == 13 { 'd' } else if d == 14 { 'e' } else { 'f' }
}

fn push_escaped_char(out: &mut String, c: char)
    ensures
        final(out)@ == old(out)@ + escape_char(c),
{
    let code = c as u32;
    if c == '"' {
        push_char(out, '\\');
        push_char(out, '"');
    } else if c == '\\' {
        push_char(out, '\\');
        push_char(out, '\\');
    } else if c == '\x08' {
        push_char(out, '\\');
        push_char(out, 'b');
    } else if c == '\t' {
        push_char(out, '\\');
        push_char(out, 't');
    } else if c == '\n' {
        push_char(out, '\\');
        push_char(out, 'n');
    } else if c == '\x0C' {
        push_char(out, '\\');
        push_char(out, 'f');
    } else if c == '\r' {
        push_char(out, '\\');
        push_char(out, 'r');
    } else if code < 0x20 {
        push_char(out, '\\');
        push_char(out, 'u');
        push_char(out, '0');
        push_char(out, '0');
        push_char(out, hex_of(code / 16));
        push_char(out, hex_of(code % 16));
    } else {
        push_char(out, c);
    }
    assert(final(out)@ =~= old(out)@ + escape_char(c));
}

/// Appends `s` as a JSON string literal.
pub fn push_quoted(out: &mut String, s: &str)
    ensures
        final(out)@ == old(out)@ + quoted(s@),
{
    let cs = chars_of(s);
    let ghost start = out@;
    push_char(out, '"');
    let mut i: usize = 0;
    while i < cs.len()
        invariant
            i <= cs@.len(),
            out@ == start + seq!['"'] + escaped(cs@.take(i as int)),
        decreases cs@.len() - i,
    {
        assert(cs@.take(i + 1).drop_last() =~= cs@.take(i as int));
        push_escaped_char(out, cs[i]);
        i = i + 1;
    }
    assert(cs@.take(i as int) =~= s@);
    push_char(out, '"');
    assert(out@ =~= start + quoted(s@));
}

/// Appends the compact JSON text of `j`.
pub fn push_rendered(out: &mut String, j: &Json)
    ensures
        final(out)@ == old(out)@ + render(*j),
    decreases j,
{
    match j {
        Json::Null => out.append("null"),
        Json::Bool(b) => if *b { out.append("true") } else { out.append("false") },
        Json::Number(n) => out.append(n.text.as_str()),
        Json::Text(s) => push_quoted(out, s.as_str()),
        Json::Array(x) => {
            let ghost start = out@;
            out.append("[");
            let mut i: usize = 0;
            while i < x.len()
                invariant
                    *j == Json::Array(*x),
                    i <= x@.len(),
                    out@ == start + "["@ + render_items(x@, i as int),
                decreases x@.len() - i,
            {
                proof {
                    assert(decreases_to!(*j => j->Array_0));
                    assert(decreases_to!(j->Array_0 => x@));
                    assert(decreases_to!(x@ => x@[i as int]));
                }
                if i > 0 {
                    out.append(",");
                }
                push_rendered(out, &x[i]);
                i = i + 1;
                assert(out@ =~= start + "["@ + render_items(x@, i as int));
            }
            out.append("]");
            assert(out@ =~= start + render(*j));
        },
        Json::Object(m) => {
            let ghost start = out@;
            out.append("{");
            let mut i: usize = 0;
            while i < m.len()
                invariant
                    *j == Json::Object(*m),
                    i <= m@.len(),
                    out@ == start + "{"@ + render_members(m@, i as int),
                decreases m@.len() - i,
            {
                proof {
                    assert(decreases_to!(*j => j->Object_0));
                    assert(decreases_to!(j->Object_0 => m@));
                    assert(decreases_to!(m@ => m@[i as int]));
                    assert(decreases_to!(m@[i as int] => m@[i as int].1));
                }
                if i > 0 {
                    out.append(",");
                }
                let ghost mid = out@;
                push_quoted(out, m[i].0.as_str());
                out.append(":");
                push_rendered(out, &m[i].1);
                assert(out@ =~= mid + render_member(m@[i as int]));
                assert(render_members(m@, i + 1) == if i == 0 {
                    render_member(m@[0])
                } else {
                    render_members(m@, i as int) + ","@ + render_member(m@[i as int])
                });
                i = i + 1;
                assert(out@ =~= start + "{"@ + render_members(m@, i as int));
            }
            out.append("}");
            assert(out@ =~= start + render(*j));
        },
    }
}

} // verus!
