//! JSON Pointer lookup (RFC 6901), as `serde_json::Value::pointer` does it.
use vstd::prelude::*;

use crate::json::{get, lookup, Json};
use crate::text::{chars_of, replace_text, replaced, string_of_range};

verus! {

/// A decimal digit character.
pub open spec fn is_digit(c: char) -> bool {
    48 <= (c as u32) <= 57
}

/// The number that a string of decimal digits denotes.
pub open spec fn digits_value(t: Seq<char>) -> nat
    decreases t.len(),
{
    if t.len() == 0 {
        0
    } else {
        digits_value(t.drop_last()) * 10 + ((t.last() as u32 - 48) as nat)
    }
}

/// The array index a reference token names: decimal digits without sign or
/// leading zero that fit in `usize`.
pub open spec fn index_token(t: Seq<char>) -> Option<nat> {
    if t.len() == 0 || t[0] == '+' || (t[0] == '0' && t.len() != 1) {
        None
    } else if (forall|i: int| 0 <= i < t.len() ==> #[trigger] is_digit(t[i])) && digits_value(t)
        <= usize::MAX {
        Some(digits_value(t))
    } else {
        None
    }
}

/// A reference token with `~1` read as `/` and then `~0` as `~`.
pub open spec fn unescape_token(t: Seq<char>) -> Seq<char> {
    replaced(replaced(t, "~1"@, "/"@), "~0"@, "~"@)
}

/// One step of a pointer: the member named `token` of an object, or the
/// element at index `token` of an array.
pub open spec fn step(target: Json, token: Seq<char>) -> Option<Json> {
    match target {
        Json::Object(m) => lookup(m@, token),
        Json::Array(l) => match index_token(token) {
            Some(i) => if i < l@.len() {
                Some(l@[i as int])
            } else {
                None
            },
            None => None,
        },
        _ => None,
    }
}

/// The position of the first `/` in `s`, or its length when there is none.
pub open spec fn first_slash(s: Seq<char>) -> int
    decreases s.len(),
{
    if s.len() == 0 {
        0
    } else if s[0] == '/' {
        0
    } else {
        1 + first_slash(s.drop_first())
    }
}

/// Follows the `/`-separated tokens of `rest` from `target`.
pub open spec fn walk(target: Json, rest: Seq<char>) -> Option<Json>
    decreases rest.len(),
{
    let k = first_slash(rest);
    match step(target, unescape_token(rest.take(k))) {
        None => None,
        Some(next) => if 0 <= k < rest.len() {
            walk(next, rest.skip(k + 1))
        } else {
            Some(next)
        },
    }
}

/// The value `p` points to in `root`: the empty pointer is `root` itself, any
/// other pointer starts with `/`.
pub open spec fn pointer(root: Json, p: Seq<char>) -> Option<Json> {
    if p.len() == 0 {
        Some(root)
    } else if p[0] != '/' {
        None
    } else {
        walk(root, p.drop_first())
    }
}

proof fn lemma_first_slash(s: Seq<char>, m: int)
    requires
        0 <= m <= s.len(),
        forall|j: int| 0 <= j < m ==> s[j] != '/',
        m == s.len() || s[m] == '/',
    ensures
        first_slash(s) == m,
    decreases s.len(),
{
    if s.len() > 0 && m > 0 {
        lemma_first_slash(s.drop_first(), m - 1);
    }
}

proof fn lemma_digits_prefix(t: Seq<char>, k: int)
    requires
        0 <= k <= t.len(),
    ensures
        digits_value(t.take(k)) <= digits_value(t),
    decreases t.len(),
{
    if k < t.len() {
        assert(t.drop_last().take(k) =~= t.take(k));
        lemma_digits_prefix(t.drop_last(), k);
    } else {
        assert(t.take(k) =~= t);
    }
}

/// The array index that `t` names, as `index_token` says.
pub fn index_of_token(t: &str) -> (r: Option<usize>)
    ensures
        match r {
            Some(i) => index_token(t@) == Some(i as nat),
            None => index_token(t@) is None,
        },
{
    let cs = chars_of(t);
    if cs.len() == 0 || cs[0] == '+' || (cs[0] == '0' && cs.len() != 1) {
        return None;
    }
    let mut value: usize = 0;
    let mut i: usize = 0;
    while i < cs.len()
        invariant
            cs@ == t@,
            i <= cs@.len(),
            forall|j: int| 0 <= j < i ==> #[trigger] is_digit(cs@[j]),
            value == digits_value(cs@.take(i as int)),
        decreases cs@.len() - i,
    {
        let c = cs[i];
        let code = c as u32;
        if code < 48 || code > 57 {
            assert(!is_digit(cs@[i as int]));
            return None;
        }
        let d = (code - 48) as usize;
        assert(cs@.take(i + 1).drop_last() =~= cs@.take(i as int));
        if value > (usize::MAX - d) / 10 {
            proof {
                assert(digits_value(cs@.take(i + 1)) > usize::MAX);
                lemma_digits_prefix(cs@, i + 1);
            }
            return None;
        }
        value = value * 10 + d;
        i = i + 1;
    }
    assert(cs@.take(i as int) =~= cs@);
    Some(value)
}

fn step_into<'a>(target: &'a Json, token: &str) -> (r: Option<&'a Json>)
    ensures
        match r {
            Some(v) => step(*target, token@) == Some(*v),
            None => step(*target, token@) is None,
        },
{
    match target {
        Json::Object(m) => get(m, token),
        Json::Array(l) => match index_of_token(token) {
            Some(i) => if i < l.len() {
                Some(&l[i])
            } else {
                None
            },
            None => None,
        },
        _ => None,
    }
}

/// The value `p` points to in `root` (`Value::pointer`).
pub fn resolve_pointer<'a>(root: &'a Json, p: &str) -> (r: Option<&'a Json>)
    ensures
        match r {
            Some(v) => pointer(*root, p@) == Some(*v),
            None => pointer(*root, p@) is None,
        },
{
    let cs = chars_of(p);
    if cs.len() == 0 {
        return Some(root);
    }
    if cs[0] != '/' {
        return None;
    }
    proof {
        reveal_strlit("~1");
        reveal_strlit("~0");
    }
    let mut target: &'a Json = root;
    let mut pos: usize = 1;
    assert(cs@.skip(1) =~= cs@.drop_first());
    loop
        invariant
            cs@ == p@,
            1 <= pos <= cs@.len(),
            "~1"@.len() > 0,
            "~0"@.len() > 0,
            pointer(*root, p@) == walk(*target, cs@.skip(pos as int)),
        decreases cs@.len() - pos,
    {
        let mut k: usize = pos;
        while k < cs.len() && cs[k] != '/'
            invariant
                pos <= k <= cs@.len(),
                forall|j: int| pos <= j < k ==> cs@[j] != '/',
            decreases cs@.len() - k,
        {
            k = k + 1;
        }
        let ghost rest = cs@.skip(pos as int);
        proof {
            lemma_first_slash(rest, k - pos);
            assert(rest.take(k - pos) =~= cs@.subrange(pos as int, k as int));
        }
        let token = string_of_range(&cs, pos, k);
        let once = replace_text(token.as_str(), "~1", "/");
        let unescaped = replace_text(once.as_str(), "~0", "~");
        match step_into(target, unescaped.as_str()) {
            None => {
                return None;
            },
            Some(next) => {
                if k >= cs.len() {
                    return Some(next);
                }
                assert(rest.skip(k - pos + 1) =~= cs@.skip(k + 1));
                target = next;
                pos = k + 1;
            },
        }
    }
}

} // verus!
