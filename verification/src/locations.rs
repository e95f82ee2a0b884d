//! Locations: how a member name is written into a location and read back, and
//! where in the document the issues of an evaluation point.
use vstd::prelude::*;

use crate::contract::Finding;
use crate::json::{has_key, lookup, Json};
use crate::pointer::{digits_value, first_slash, index_token, is_digit, pointer, step, unescape_token, walk};
use crate::schema::{
    all_findings, array_findings, branches, child, composition_findings, declared, escape_name,
    evaluate, finding, issue_path, items_findings, keyword_findings, match_count, matches_any, member_findings,
    members_findings, number_findings, object_findings, properties_of, ref_findings, ref_target, required_findings,
    required_part, resolve, size_findings, string_findings, type_findings, value_findings, check_findings, halts,
    terminates,
};
use crate::text::{decimal, digit_char, replaced};

verus! {

/// One character of a name as a reference token writes it.
pub open spec fn escape_one(c: char) -> Seq<char> {
    if c == '~' {
        seq!['~', '0']
    } else if c == '/' {
        seq!['~', '1']
    } else {
        seq![c]
    }
}

/// A name with `~` written `~0` and `/` written `~1`, character by character.
pub open spec fn escaped_token(s: Seq<char>) -> Seq<char>
    decreases s.len(),
{
    if s.len() == 0 {
        seq![]
    } else {
        escape_one(s[0]) + escaped_token(s.drop_first())
    }
}

/// A name with only `~` written `~0`: what `escape_name` writes after its first
/// replacement, and what `unescape_token` reads after its first.
spec fn tildes_escaped(s: Seq<char>) -> Seq<char>
    decreases s.len(),
{
    if s.len() == 0 {
        seq![]
    } else {
        (if s[0] == '~' { seq!['~', '0'] } else { seq![s[0]] }) + tildes_escaped(s.drop_first())
    }
}

proof fn lemma_match_head(from: Seq<char>, r: Seq<char>, to: Seq<char>)
    requires
        from.len() > 0,
    ensures
        replaced(from + r, from, to) == to + replaced(r, from, to),
{
    let s = from + r;
    assert(s.take(from.len() as int) =~= from);
    assert(s.skip(from.len() as int) =~= r);
}

proof fn lemma_char_head(c: char, r: Seq<char>, from: Seq<char>, to: Seq<char>)
    requires
        from.len() > 0,
        from[0] != c,
    ensures
        replaced(seq![c] + r, from, to) == seq![c] + replaced(r, from, to),
{
    let s = seq![c] + r;
    assert(s[0] == c);
    if from.len() <= s.len() {
        assert(s.take(from.len() as int)[0] == c);
    }
    assert(s.drop_first() =~= r);
}

proof fn lemma_tildes(s: Seq<char>)
    ensures
        replaced(s, "~"@, "~0"@) == tildes_escaped(s),
    decreases s.len(),
{
    reveal_strlit("~");
    reveal_strlit("~0");
    if s.len() > 0 {
        lemma_tildes(s.drop_first());
        assert(s =~= seq![s[0]] + s.drop_first());
        if s[0] == '~' {
            assert(seq![s[0]] =~= "~"@);
            lemma_match_head("~"@, s.drop_first(), "~0"@);
        } else {
            lemma_char_head(s[0], s.drop_first(), "~"@, "~0"@);
        }
    }
}

proof fn lemma_slashes(s: Seq<char>)
    ensures
        replaced(tildes_escaped(s), "/"@, "~1"@) == escaped_token(s),
    decreases s.len(),
{
    reveal_strlit("/");
    reveal_strlit("~1");
    if s.len() > 0 {
        let r = tildes_escaped(s.drop_first());
        lemma_slashes(s.drop_first());
        if s[0] == '~' {
            lemma_char_head('0', r, "/"@, "~1"@);
            lemma_char_head('~', seq!['0'] + r, "/"@, "~1"@);
            assert(seq!['~', '0'] + r =~= seq!['~'] + (seq!['0'] + r));
            assert(seq!['~'] + (seq!['0'] + replaced(r, "/"@, "~1"@)) =~= seq!['~', '0'] + replaced(r, "/"@, "~1"@));
        } else if s[0] == '/' {
            assert(seq![s[0]] =~= "/"@);
            lemma_match_head("/"@, r, "~1"@);
        } else {
            lemma_char_head(s[0], r, "/"@, "~1"@);
        }
    }
}

/// `escape_name` writes a name character by character as `escaped_token` says.
pub proof fn lemma_escape_name(name: Seq<char>)
    ensures
        escape_name(name) == escaped_token(name),
{
    lemma_tildes(name);
    lemma_slashes(name);
}

proof fn lemma_read_slashes(s: Seq<char>)
    ensures
        replaced(escaped_token(s), "~1"@, "/"@) == tildes_escaped(s),
    decreases s.len(),
{
    reveal_strlit("/");
    reveal_strlit("~1");
    if s.len() > 0 {
        let r = escaped_token(s.drop_first());
        lemma_read_slashes(s.drop_first());
        if s[0] == '~' {
            let t = seq!['~', '0'] + r;
            assert(t[0] == '~' && t[1] == '0');
            if 2 <= t.len() {
                assert(t.take(2)[1] == '0');
                assert(t.take(2) != "~1"@);
            }
            assert(t.drop_first() =~= seq!['0'] + r);
            lemma_char_head('0', r, "~1"@, "/"@);
            assert(seq!['~'] + (seq!['0'] + replaced(r, "~1"@, "/"@)) =~= seq!['~', '0'] + replaced(r, "~1"@, "/"@));
        } else if s[0] == '/' {
            assert(seq!['~', '1'] =~= "~1"@);
            lemma_match_head("~1"@, r, "/"@);
        } else {
            lemma_char_head(s[0], r, "~1"@, "/"@);
        }
    }
}

proof fn lemma_read_tildes(s: Seq<char>)
    ensures
        replaced(tildes_escaped(s), "~0"@, "~"@) == s,
    decreases s.len(),
{
    reveal_strlit("~");
    reveal_strlit("~0");
    if s.len() > 0 {
        let r = tildes_escaped(s.drop_first());
        lemma_read_tildes(s.drop_first());
        if s[0] == '~' {
            assert(seq!['~', '0'] =~= "~0"@);
            lemma_match_head("~0"@, r, "~"@);
        } else {
            lemma_char_head(s[0], r, "~0"@, "~"@);
        }
        assert(s =~= seq![s[0]] + s.drop_first());
    }
}

proof fn lemma_no_slash(s: Seq<char>)
    ensures
        forall|i: int| 0 <= i < escaped_token(s).len() ==> escaped_token(s)[i] != '/',
    decreases s.len(),
{
    if s.len() > 0 {
        lemma_no_slash(s.drop_first());
        let a = escape_one(s[0]);
        let b = escaped_token(s.drop_first());
        assert forall|i: int| 0 <= i < (a + b).len() implies (a + b)[i] != '/' by {
            if i >= a.len() {
                assert((a + b)[i] == b[i - a.len()]);
            }
        }
    }
}

proof fn lemma_first_slash_none(s: Seq<char>)
    requires
        forall|i: int| 0 <= i < s.len() ==> s[i] != '/',
    ensures
        first_slash(s) == s.len(),
    decreases s.len(),
{
    if s.len() > 0 {
        lemma_first_slash_none(s.drop_first());
    }
}

/// The reference token a location writes for a name reads back as that name,
/// and holds no `/`: a location below `path` is `path` and one more token.
pub proof fn law_token_reads_back(name: Seq<char>)
    ensures
        unescape_token(escape_name(name)) == name,
        !escape_name(name).contains('/'),
{
    lemma_escape_name(name);
    lemma_read_slashes(name);
    lemma_read_tildes(name);
    lemma_no_slash(name);
}

/// The location of a member of an object, below the root, is a JSON pointer
/// that finds that member.
pub proof fn law_member_location_points_to_member(object: Json, name: Seq<char>)
    requires
        object is Object,
    ensures
        pointer(object, child(Seq::empty(), name)) == lookup(object->Object_0@, name),
{
    reveal_strlit("/");
    law_token_reads_back(name);
    let e = escape_name(name);
    let p = child(Seq::empty(), name);
    assert(p =~= seq!['/'] + e);
    assert(p.drop_first() =~= e);
    lemma_escape_name(name);
    lemma_no_slash(name);
    lemma_first_slash_none(e);
    assert(e.take(e.len() as int) =~= e);
    assert(walk(object, e) == step(object, name));
}


/// Objects whose members have distinct names, at every depth (what a
/// document's maps give).
pub open spec fn distinct_names(j: Json) -> bool
    decreases j,
{
    match j {
        Json::Object(m) => names_differ(m@) && members_distinct(m@, m@.len() as int),
        Json::Array(v) => items_distinct(v@, v@.len() as int),
        _ => true,
    }
}

/// No two members share a name.
pub open spec fn names_differ(m: Seq<(String, Json)>) -> bool {
    forall|a: int, b: int| 0 <= a < b < m.len() ==> #[trigger] m[a].0@ != #[trigger] m[b].0@
}

/// The values of the first `n` members have distinct names at every depth.
pub open spec fn members_distinct(m: Seq<(String, Json)>, n: int) -> bool
    decreases m, n,
{
    n <= 0 || n > m.len() || (members_distinct(m, n - 1) && distinct_names(m[n - 1].1))
}

/// The first `n` elements have distinct names at every depth.
pub open spec fn items_distinct(v: Seq<Json>, n: int) -> bool
    decreases v, n,
{
    n <= 0 || n > v.len() || (items_distinct(v, n - 1) && distinct_names(v[n - 1]))
}

/// `x` is reported at `issue_path(q)`, and the location `q` finds a value in
/// `doc`, or `x` is a `required` issue and `q` is the member that is missing.
pub open spec fn pointed_at(doc: Json, x: Finding, q: Seq<char>) -> bool {
    &&& x.path == Some(issue_path(q))
    &&& (pointer(doc, q) is Some || (x.code == "required"@ && pointer(doc, q) is None))
}

/// `x` is reported at a location of `doc`.
pub open spec fn pointed(doc: Json, x: Finding) -> bool {
    exists|q: Seq<char>| #[trigger] pointed_at(doc, x, q)
}

/// Every issue of `s` is reported at a location of `doc`.
pub open spec fn all_pointed(s: Seq<Finding>, doc: Json) -> bool {
    forall|i: int| 0 <= i < s.len() ==> #[trigger] pointed(doc, s[i])
}

proof fn lemma_pointed_concat(a: Seq<Finding>, b: Seq<Finding>, doc: Json)
    requires
        all_pointed(a, doc),
        all_pointed(b, doc),
    ensures
        all_pointed(a + b, doc),
{
    assert forall|i: int| 0 <= i < (a + b).len() implies #[trigger] pointed(doc, (a + b)[i]) by {
        if i < a.len() {
            assert((a + b)[i] == a[i]);
        } else {
            assert((a + b)[i] == b[i - a.len()]);
        }
    }
}

proof fn lemma_here_pointed(doc: Json, path: Seq<char>, code: Seq<char>, message: Seq<char>)
    requires
        pointer(doc, path) is Some,
    ensures
        all_pointed(seq![finding(code, message, path)], doc),
{
    assert(pointed_at(doc, finding(code, message, path), path));
}

proof fn lemma_first_slash_concat(a: Seq<char>, b: Seq<char>)
    ensures
        first_slash(a) < a.len() ==> first_slash(a + b) == first_slash(a),
        first_slash(a) >= a.len() ==> first_slash(a + b) == a.len() + first_slash(b),
    decreases a.len(),
{
    if a.len() > 0 {
        assert((a + b)[0] == a[0]);
        assert((a + b).drop_first() =~= a.drop_first() + b);
        lemma_first_slash_concat(a.drop_first(), b);
    } else {
        assert(a + b =~= b);
    }
}

proof fn lemma_first_slash_bounds(s: Seq<char>)
    ensures
        0 <= first_slash(s) <= s.len(),
        first_slash(s) < s.len() ==> s[first_slash(s)] == '/',
    decreases s.len(),
{
    if s.len() > 0 && s[0] != '/' {
        lemma_first_slash_bounds(s.drop_first());
    }
}

proof fn lemma_walk_token(t: Json, e: Seq<char>)
    requires
        !e.contains('/'),
    ensures
        walk(t, e) == step(t, unescape_token(e)),
{
    assert forall|i: int| 0 <= i < e.len() implies e[i] != '/' by {
        if e[i] == '/' {
            assert(e.contains('/'));
        }
    }
    lemma_first_slash_none(e);
    assert(e.take(e.len() as int) =~= e);
}

proof fn lemma_walk_append(x: Json, r: Seq<char>, e: Seq<char>, t: Json)
    requires
        walk(x, r) == Some(t),
        !e.contains('/'),
    ensures
        walk(x, r + seq!['/'] + e) == walk(t, e),
    decreases r.len(),
{
    let s = r + seq!['/'] + e;
    let k = first_slash(r);
    lemma_first_slash_bounds(r);
    lemma_first_slash_concat(r, seq!['/'] + e);
    assert(s =~= r + (seq!['/'] + e));
    if k < r.len() {
        assert(s.take(k) =~= r.take(k));
        let next = step(x, unescape_token(r.take(k))).unwrap();
        assert(s.skip(k + 1) =~= r.skip(k + 1) + seq!['/'] + e);
        lemma_walk_append(next, r.skip(k + 1), e, t);
    } else {
        assert(first_slash(seq!['/'] + e) == 0);
        assert(s.take(k) =~= r);
        assert(r.take(k) =~= r);
        assert(s.skip(k + 1) =~= e);
    }
}

proof fn lemma_escaped_plain(s: Seq<char>)
    requires
        forall|i: int| 0 <= i < s.len() ==> s[i] != '~' && s[i] != '/',
    ensures
        escaped_token(s) == s,
    decreases s.len(),
{
    if s.len() > 0 {
        lemma_escaped_plain(s.drop_first());
        assert(s =~= seq![s[0]] + s.drop_first());
    }
}

/// The location of a member or element below a location of `doc` finds what
/// one step from the value there finds.
pub proof fn lemma_child_pointer(doc: Json, path: Seq<char>, t: Json, name: Seq<char>)
    requires
        pointer(doc, path) == Some(t),
    ensures
        pointer(doc, child(path, name)) == step(t, name),
{
    reveal_strlit("/");
    law_token_reads_back(name);
    let e = escape_name(name);
    lemma_walk_token(t, e);
    let c = child(path, name);
    if path.len() == 0 {
        assert(c =~= seq!['/'] + e);
        assert(c.drop_first() =~= e);
    } else {
        assert(c[0] == path[0]);
        assert(c.drop_first() =~= path.drop_first() + seq!['/'] + e);
        lemma_walk_append(doc, path.drop_first(), e, t);
    }
}

proof fn lemma_decimal_digits(n: nat)
    ensures
        decimal(n).len() > 0,
        forall|i: int| 0 <= i < decimal(n).len() ==> #[trigger] is_digit(decimal(n)[i]),
        digits_value(decimal(n)) == n,
        n > 0 ==> decimal(n)[0] != '0',
    decreases n,
{
    if n >= 10 {
        lemma_decimal_digits(n / 10);
        let d = decimal(n / 10);
        let s = d.push(digit_char(n % 10));
        assert(s.drop_last() =~= d);
        assert(s[0] == d[0]);
        assert forall|i: int| 0 <= i < s.len() implies #[trigger] is_digit(s[i]) by {
            if i < d.len() {
                assert(s[i] == d[i]);
            }
        }
        assert(digit_char((n % 10) as nat) as u32 == 48 + n % 10);
        assert(digits_value(s) == digits_value(d) * 10 + (n % 10));
        assert((n / 10) * 10 + n % 10 == n);
        assert(decimal(n) == s);
    } else {
        let s = seq![digit_char(n)];
        assert(s.drop_last() =~= Seq::<char>::empty());
        assert(digit_char(n) as u32 == 48 + n);
        assert(decimal(n) == s);
        assert(digits_value(s) == digits_value(Seq::<char>::empty()) * 10 + n);
    }
}

/// The decimal numeral of an index is the reference token of that index.
pub proof fn lemma_index_token_of_decimal(i: nat)
    requires
        i <= usize::MAX,
    ensures
        index_token(decimal(i)) == Some(i),
        unescape_token(escape_name(decimal(i))) == decimal(i),
        escape_name(decimal(i)) == decimal(i),
{
    lemma_decimal_digits(i);
    let d = decimal(i);
    assert(is_digit(d[0]));
    if d[0] == '0' && d.len() != 1 {
        assert(i == 0);
    }
    assert forall|k: int| 0 <= k < d.len() implies d[k] != '~' && d[k] != '/' by {
        assert(is_digit(d[k]));
    }
    lemma_escaped_plain(d);
    lemma_escape_name(d);
    law_token_reads_back(d);
}

proof fn lemma_lookup_distinct(m: Seq<(String, Json)>, k: int)
    requires
        names_differ(m),
        0 <= k < m.len(),
    ensures
        lookup(m, m[k].0@) == Some(m[k].1),
    decreases k,
{
    if k > 0 {
        assert(m[0].0@ != m[k].0@);
        assert forall|a: int, b: int| 0 <= a < b < m.drop_first().len() implies #[trigger] m.drop_first()[a].0@
            != #[trigger] m.drop_first()[b].0@ by {
            assert(m[a + 1].0@ != m[b + 1].0@);
        }
        lemma_lookup_distinct(m.drop_first(), k - 1);
    }
}

proof fn lemma_members_distinct_at(m: Seq<(String, Json)>, n: int, k: int)
    requires
        members_distinct(m, n),
        0 <= k < n <= m.len(),
    ensures
        distinct_names(m[k].1),
    decreases n,
{
    if k < n - 1 {
        lemma_members_distinct_at(m, n - 1, k);
    }
}

proof fn lemma_items_distinct_at(v: Seq<Json>, n: int, k: int)
    requires
        items_distinct(v, n),
        0 <= k < n <= v.len(),
    ensures
        distinct_names(v[k]),
    decreases n,
{
    if k < n - 1 {
        lemma_items_distinct_at(v, n - 1, k);
    }
}

proof fn lemma_local_pointed(doc: Json, kw: Seq<(String, Json)>, inst: Json, path: Seq<char>)
    requires
        pointer(doc, path) is Some,
    ensures
        all_pointed(type_findings(kw, inst, path), doc),
        all_pointed(value_findings(kw, inst, path), doc),
        all_pointed(string_findings(kw, inst, path), doc),
        all_pointed(number_findings(kw, inst, path), doc),
{
    let t = type_findings(kw, inst, path);
    assert forall|i: int| 0 <= i < t.len() implies #[trigger] pointed(doc, t[i]) by {
        assert(pointed_at(doc, t[i], path));
    }
    let v = value_findings(kw, inst, path);
    assert forall|i: int| 0 <= i < v.len() implies #[trigger] pointed(doc, v[i]) by {
        assert(pointed_at(doc, v[i], path));
    }
    let s = string_findings(kw, inst, path);
    assert forall|i: int| 0 <= i < s.len() implies #[trigger] pointed(doc, s[i]) by {
        assert(pointed_at(doc, s[i], path));
    }
    let n = number_findings(kw, inst, path);
    assert forall|i: int| 0 <= i < n.len() implies #[trigger] pointed(doc, n[i]) by {
        assert(pointed_at(doc, n[i], path));
    }
}

proof fn lemma_required_pointed(doc: Json, inst: Json, reqs: Seq<Json>, path: Seq<char>, n: int)
    requires
        pointer(doc, path) == Some(inst),
        inst is Object,
    ensures
        all_pointed(required_findings(reqs, inst->Object_0@, path, n), doc),
    decreases n,
{
    let members = inst->Object_0@;
    if n > 0 && n <= reqs.len() {
        lemma_required_pointed(doc, inst, reqs, path, n - 1);
        match reqs[n - 1] {
            Json::Text(name) => {
                let x = finding("required"@, "missing property "@ + name@, child(path, name@));
                lemma_child_pointer(doc, path, inst, name@);
                let part: Seq<Finding> = if has_key(members, name@) {
                    seq![]
                } else {
                    assert(pointed_at(doc, x, child(path, name@)));
                    seq![x]
                };
                lemma_pointed_concat(required_findings(reqs, members, path, n - 1), part, doc);
            },
            _ => {
                assert(required_findings(reqs, members, path, n - 1) + Seq::<Finding>::empty() =~= required_findings(
                    reqs,
                    members,
                    path,
                    n - 1,
                ));
            },
        }
    }
}


proof fn lemma_eval_pointed(doc: Json, root: Json, schema: Json, inst: Json, path: Seq<char>, fuel: nat)
    requires
        pointer(doc, path) == Some(inst),
        distinct_names(inst),
    ensures
        all_pointed(evaluate(root, schema, inst, path, fuel), doc),
    decreases fuel, 0nat, 0int,
{
    if fuel > 0 {
        match schema {
            Json::Bool(b) => {
                if !b {
                    lemma_here_pointed(doc, path, "false"@, "nothing is allowed here"@);
                }
            },
            Json::Object(kw) => lemma_keywords_pointed(doc, root, kw@, inst, path, (fuel - 1) as nat),
            _ => {},
        }
    }
}

proof fn lemma_keywords_pointed(doc: Json, root: Json, kw: Seq<(String, Json)>, inst: Json, path: Seq<char>, f: nat)
    requires
        pointer(doc, path) == Some(inst),
        distinct_names(inst),
    ensures
        all_pointed(keyword_findings(root, kw, inst, path, f), doc),
    decreases f, 3nat, 0int,
{
    lemma_ref_pointed(doc, root, kw, inst, path, f);
    lemma_local_pointed(doc, kw, inst, path);
    lemma_object_pointed(doc, root, kw, inst, path, f);
    lemma_array_pointed(doc, root, kw, inst, path, f);
    lemma_composition_pointed(doc, root, kw, inst, path, f);
    let a = ref_findings(root, kw, inst, path, f);
    let b = type_findings(kw, inst, path);
    let c = value_findings(kw, inst, path);
    let d = object_findings(root, kw, inst, path, f);
    let e = array_findings(root, kw, inst, path, f);
    let g = string_findings(kw, inst, path);
    let h = number_findings(kw, inst, path);
    let k = composition_findings(root, kw, inst, path, f);
    lemma_pointed_concat(a, b, doc);
    lemma_pointed_concat(a + b, c, doc);
    lemma_pointed_concat(a + b + c, d, doc);
    lemma_pointed_concat(a + b + c + d, e, doc);
    lemma_pointed_concat(a + b + c + d + e, g, doc);
    lemma_pointed_concat(a + b + c + d + e + g, h, doc);
    lemma_pointed_concat(a + b + c + d + e + g + h, k, doc);
}

proof fn lemma_ref_pointed(doc: Json, root: Json, kw: Seq<(String, Json)>, inst: Json, path: Seq<char>, f: nat)
    requires
        pointer(doc, path) == Some(inst),
        distinct_names(inst),
    ensures
        all_pointed(ref_findings(root, kw, inst, path, f), doc),
    decreases f, 1nat, 0int,
{
    match ref_target(kw) {
        Some(r) => match resolve(root, r) {
            Some(t) => lemma_eval_pointed(doc, root, t, inst, path, f),
            None => lemma_here_pointed(doc, path, "$ref"@, "unresolvable "@ + r),
        },
        None => {},
    }
}

proof fn lemma_member_pointed(
    doc: Json,
    root: Json,
    kw: Seq<(String, Json)>,
    inst: Json,
    k: int,
    path: Seq<char>,
    f: nat,
)
    requires
        pointer(doc, path) == Some(inst),
        distinct_names(inst),
        inst is Object,
        0 <= k < inst->Object_0@.len(),
    ensures
        all_pointed(
            member_findings(root, kw, inst->Object_0@[k].0@, inst->Object_0@[k].1, path, f),
            doc,
        ),
    decreases f, 1nat, 0int,
{
    let m = inst->Object_0@;
    let name = m[k].0@;
    let value = m[k].1;
    let at = child(path, name);
    lemma_child_pointer(doc, path, inst, name);
    lemma_lookup_distinct(m, k);
    lemma_members_distinct_at(m, m.len() as int, k);
    assert(pointer(doc, at) == Some(value));
    match declared(properties_of(kw), name) {
        Some(sub) => lemma_eval_pointed(doc, root, sub, value, at, f),
        None => match lookup(kw, "additionalProperties"@) {
            Some(Json::Bool(false)) => {
                lemma_here_pointed(doc, at, "additionalProperties"@, "is not a declared property"@);
            },
            Some(a) => {
                if a is Object {
                    lemma_eval_pointed(doc, root, a, value, at, f);
                }
            },
            None => {},
        },
    }
}

proof fn lemma_members_pointed(doc: Json, root: Json, kw: Seq<(String, Json)>, inst: Json, path: Seq<char>, f: nat, n: int)
    requires
        pointer(doc, path) == Some(inst),
        distinct_names(inst),
        inst is Object,
    ensures
        all_pointed(members_findings(root, kw, inst->Object_0@, path, f, n), doc),
    decreases f, 1nat, n,
{
    let m = inst->Object_0@;
    if n > 0 && n <= m.len() {
        lemma_members_pointed(doc, root, kw, inst, path, f, n - 1);
        lemma_member_pointed(doc, root, kw, inst, n - 1, path, f);
        lemma_pointed_concat(
            members_findings(root, kw, m, path, f, n - 1),
            member_findings(root, kw, m[n - 1].0@, m[n - 1].1, path, f),
            doc,
        );
    }
}

proof fn lemma_object_pointed(doc: Json, root: Json, kw: Seq<(String, Json)>, inst: Json, path: Seq<char>, f: nat)
    requires
        pointer(doc, path) == Some(inst),
        distinct_names(inst),
    ensures
        all_pointed(object_findings(root, kw, inst, path, f), doc),
    decreases f, 2nat, 0int,
{
    match inst {
        Json::Object(m) => {
            match lookup(kw, "required"@) {
                Some(Json::Array(r)) => lemma_required_pointed(doc, inst, r@, path, r@.len() as int),
                _ => {},
            }
            lemma_members_pointed(doc, root, kw, inst, path, f, m@.len() as int);
            lemma_pointed_concat(
                required_part(kw, m@, path),
                members_findings(root, kw, m@, path, f, m@.len() as int),
                doc,
            );
        },
        _ => {},
    }
}

proof fn lemma_items_pointed(doc: Json, root: Json, sub: Json, inst: Json, path: Seq<char>, f: nat, n: int)
    requires
        pointer(doc, path) == Some(inst),
        distinct_names(inst),
        inst is Array,
    ensures
        all_pointed(items_findings(root, sub, inst->Array_0@, path, f, n), doc),
    decreases f, 1nat, n,
{
    let l = inst->Array_0@;
    if n > 0 && n <= l.len() {
        let i = n - 1;
        let at = child(path, decimal(i as nat));
        lemma_items_pointed(doc, root, sub, inst, path, f, n - 1);
        assert(inst->Array_0.len() == l.len());
        lemma_index_token_of_decimal(i as nat);
        lemma_child_pointer(doc, path, inst, decimal(i as nat));
        assert(pointer(doc, at) == Some(l[i]));
        lemma_items_distinct_at(l, l.len() as int, i);
        lemma_eval_pointed(doc, root, sub, l[i], at, f);
        lemma_pointed_concat(items_findings(root, sub, l, path, f, n - 1), evaluate(root, sub, l[i], at, f), doc);
    }
}

proof fn lemma_array_pointed(doc: Json, root: Json, kw: Seq<(String, Json)>, inst: Json, path: Seq<char>, f: nat)
    requires
        pointer(doc, path) == Some(inst),
        distinct_names(inst),
    ensures
        all_pointed(array_findings(root, kw, inst, path, f), doc),
    decreases f, 2nat, 0int,
{
    match inst {
        Json::Array(items) => {
            let sizes = size_findings(kw, items@.len(), path, "minItems"@, "maxItems"@, "has "@, " items"@);
            assert forall|i: int| 0 <= i < sizes.len() implies #[trigger] pointed(doc, sizes[i]) by {
                assert(pointed_at(doc, sizes[i], path));
            }
            match lookup(kw, "items"@) {
                Some(sub) => {
                    lemma_items_pointed(doc, root, sub, inst, path, f, items@.len() as int);
                    lemma_pointed_concat(sizes, items_findings(root, sub, items@, path, f, items@.len() as int), doc);
                },
                None => {
                    lemma_pointed_concat(sizes, Seq::empty(), doc);
                },
            }
        },
        _ => {},
    }
}

proof fn lemma_all_pointed(doc: Json, root: Json, bs: Seq<Json>, inst: Json, path: Seq<char>, f: nat, n: int)
    requires
        pointer(doc, path) == Some(inst),
        distinct_names(inst),
    ensures
        all_pointed(all_findings(root, bs, inst, path, f, n), doc),
    decreases f, 1nat, n,
{
    if n > 0 && n <= bs.len() {
        lemma_all_pointed(doc, root, bs, inst, path, f, n - 1);
        lemma_eval_pointed(doc, root, bs[n - 1], inst, path, f);
        lemma_pointed_concat(all_findings(root, bs, inst, path, f, n - 1), evaluate(root, bs[n - 1], inst, path, f), doc);
    }
}

proof fn lemma_composition_pointed(doc: Json, root: Json, kw: Seq<(String, Json)>, inst: Json, path: Seq<char>, f: nat)
    requires
        pointer(doc, path) == Some(inst),
        distinct_names(inst),
    ensures
        all_pointed(composition_findings(root, kw, inst, path, f), doc),
    decreases f, 2nat, 0int,
{
    let all = branches(kw, "allOf"@);
    let any = branches(kw, "anyOf"@);
    let one = branches(kw, "oneOf"@);
    let count = match_count(root, one, inst, path, f, one.len() as int);
    lemma_all_pointed(doc, root, all, inst, path, f, all.len() as int);
    let a = all_findings(root, all, inst, path, f, all.len() as int);
    let b: Seq<Finding> = if any.len() > 0 && !matches_any(root, any, inst, path, f, 0) {
        seq![finding("anyOf"@, "matches none of the alternatives"@, path)]
    } else {
        seq![]
    };
    let c: Seq<Finding> = if one.len() > 0 && count != 1 {
        seq![finding("oneOf"@, "matches "@ + decimal(count) + " alternatives, exactly one required"@, path)]
    } else {
        seq![]
    };
    let d: Seq<Finding> = match lookup(kw, "not"@) {
        Some(x) => if evaluate(root, x, inst, path, f).len() == 0 {
            seq![finding("not"@, "matches a schema it must not"@, path)]
        } else {
            seq![]
        },
        None => seq![],
    };
    lemma_here_pointed(doc, path, "anyOf"@, "matches none of the alternatives"@);
    lemma_here_pointed(doc, path, "oneOf"@, "matches "@ + decimal(count) + " alternatives, exactly one required"@);
    lemma_here_pointed(doc, path, "not"@, "matches a schema it must not"@);
    lemma_pointed_concat(a, b, doc);
    lemma_pointed_concat(a + b, c, doc);
    lemma_pointed_concat(a + b + c, d, doc);
    assert(composition_findings(root, kw, inst, path, f) == a + b + c + d);
}

/// Each departure is reported with the JSON pointer of where it happened: an
/// evaluation of `inst`, found in `doc` at `path`, reports every issue at a
/// location that finds a value in `doc`, or, for `required`, at the location
/// of the member that is missing (the root's location reads `/`).
pub proof fn law_issues_point_into_document(
    doc: Json,
    root: Json,
    schema: Json,
    inst: Json,
    path: Seq<char>,
    fuel: nat,
)
    requires
        pointer(doc, path) == Some(inst),
        distinct_names(inst),
    ensures
        all_pointed(evaluate(root, schema, inst, path, fuel), doc),
{
    lemma_eval_pointed(doc, root, schema, inst, path, fuel);
}

/// The same, of what a bound contract reports of a whole document.
pub proof fn law_document_issues_point_into_it(schema: Json, doc: Json)
    requires
        distinct_names(doc),
        terminates(schema, schema, doc, Seq::empty()),
    ensures
        all_pointed(check_findings(schema, schema, doc, Seq::empty()), doc),
{
    let fuel = choose|fuel: nat| halts(schema, schema, doc, Seq::empty(), fuel);
    lemma_eval_pointed(doc, schema, schema, doc, Seq::empty(), fuel);
}

} // verus!
