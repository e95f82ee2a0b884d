//! Properties of schema evaluation that hold of every schema and instance.
use vstd::prelude::*;

use crate::contract::Finding;
use crate::json::{has_key, lookup, Json};
use crate::schema::{
    all_findings, array_findings, bound_finding, check_findings, child, composition_findings, evaluate, finding,
    halts, issue_path, items_findings, keyword_findings, keywords_halt, member_findings, member_halts,
    members_findings, members_halt, number_findings, object_findings, ref_findings, required_findings,
    required_part, size_findings, string_findings, terminates, type_findings, value_findings, ref_target, resolve,
    declared, properties_of, branches, match_count, matches_any, all_halt, any_halts, array_halts, composition_halts,
    items_halt, object_halts, ref_halts,
};
use crate::pointer::{first_slash, index_token, step, unescape_token, walk};
use crate::text::{decimal, replaced};

verus! {

/// The keywords the vocabulary evaluates.
pub open spec fn is_keyword(name: Seq<char>) -> bool {
    ||| name == "$ref"@
    ||| name == "type"@
    ||| name == "enum"@
    ||| name == "const"@
    ||| name == "properties"@
    ||| name == "required"@
    ||| name == "additionalProperties"@
    ||| name == "items"@
    ||| name == "minItems"@
    ||| name == "maxItems"@
    ||| name == "minLength"@
    ||| name == "maxLength"@
    ||| name == "minimum"@
    ||| name == "maximum"@
    ||| name == "exclusiveMinimum"@
    ||| name == "exclusiveMaximum"@
    ||| name == "allOf"@
    ||| name == "anyOf"@
    ||| name == "oneOf"@
    ||| name == "not"@
}

/// The boolean schemas: `true` admits every instance and `false` none, with
/// the single issue `false` at the instance location.
pub proof fn law_boolean_schemas(root: Json, inst: Json, path: Seq<char>)
    ensures
        terminates(root, Json::Bool(true), inst, path),
        terminates(root, Json::Bool(false), inst, path),
        check_findings(root, Json::Bool(true), inst, path) == Seq::<Finding>::empty(),
        check_findings(root, Json::Bool(false), inst, path) == seq![
            finding("false"@, "nothing is allowed here"@, path),
        ],
{
    assert(halts(root, Json::Bool(true), inst, path, 1));
    assert(halts(root, Json::Bool(false), inst, path, 1));
}

/// Two lists of schema members that agree on every keyword of the vocabulary:
/// the first member of each keyword's name has the same value in both, or
/// neither has one.
pub open spec fn same_keywords(kw: Seq<(String, Json)>, kw2: Seq<(String, Json)>) -> bool {
    forall|key: Seq<char>| is_keyword(key) ==> #[trigger] lookup(kw2, key) == lookup(kw, key)
}

proof fn lemma_members_ignore(
    root: Json,
    kw: Seq<(String, Json)>,
    kw2: Seq<(String, Json)>,
    members: Seq<(String, Json)>,
    path: Seq<char>,
    f: nat,
    n: int,
)
    requires
        same_keywords(kw, kw2),
    ensures
        members_findings(root, kw2, members, path, f, n) == members_findings(root, kw, members, path, f, n),
        members_halt(root, kw2, members, path, f, n) == members_halt(root, kw, members, path, f, n),
    decreases n,
{
    assert(lookup(kw2, "properties"@) == lookup(kw, "properties"@));
    assert(lookup(kw2, "additionalProperties"@) == lookup(kw, "additionalProperties"@));
    if n > 0 && n <= members.len() {
        lemma_members_ignore(root, kw, kw2, members, path, f, n - 1);
        let name = members[n - 1].0@;
        let value = members[n - 1].1;
        assert(member_findings(root, kw2, name, value, path, f) == member_findings(root, kw, name, value, path, f));
        assert(member_halts(root, kw2, name, value, path, f) == member_halts(root, kw, name, value, path, f));
    }
}

/// Unknown keywords are ignored: two schema objects whose members agree on
/// every keyword of the vocabulary evaluate, and finish, alike, whatever
/// other members either has and wherever they stand.
#[verifier::spinoff_prover]
#[verifier::rlimit(40)]
pub proof fn law_unknown_keywords_ignored(
    root: Json,
    schema: Json,
    other: Json,
    inst: Json,
    path: Seq<char>,
    fuel: nat,
)
    requires
        schema matches Json::Object(kw) && other matches Json::Object(kw2) && same_keywords(kw@, kw2@),
    ensures
        evaluate(root, other, inst, path, fuel) == evaluate(root, schema, inst, path, fuel),
        halts(root, other, inst, path, fuel) == halts(root, schema, inst, path, fuel),
{
    let kw = schema->Object_0@;
    let kw2 = other->Object_0@;
    if fuel > 0 {
        let f = (fuel - 1) as nat;
        assert(lookup(kw2, "$ref"@) == lookup(kw, "$ref"@));
        assert(lookup(kw2, "type"@) == lookup(kw, "type"@));
        assert(lookup(kw2, "enum"@) == lookup(kw, "enum"@));
        assert(lookup(kw2, "const"@) == lookup(kw, "const"@));
        assert(lookup(kw2, "properties"@) == lookup(kw, "properties"@));
        assert(lookup(kw2, "required"@) == lookup(kw, "required"@));
        assert(lookup(kw2, "additionalProperties"@) == lookup(kw, "additionalProperties"@));
        assert(lookup(kw2, "items"@) == lookup(kw, "items"@));
        assert(lookup(kw2, "minItems"@) == lookup(kw, "minItems"@));
        assert(lookup(kw2, "maxItems"@) == lookup(kw, "maxItems"@));
        assert(lookup(kw2, "minLength"@) == lookup(kw, "minLength"@));
        assert(lookup(kw2, "maxLength"@) == lookup(kw, "maxLength"@));
        assert(lookup(kw2, "minimum"@) == lookup(kw, "minimum"@));
        assert(lookup(kw2, "maximum"@) == lookup(kw, "maximum"@));
        assert(lookup(kw2, "exclusiveMinimum"@) == lookup(kw, "exclusiveMinimum"@));
        assert(lookup(kw2, "exclusiveMaximum"@) == lookup(kw, "exclusiveMaximum"@));
        assert(lookup(kw2, "allOf"@) == lookup(kw, "allOf"@));
        assert(lookup(kw2, "anyOf"@) == lookup(kw, "anyOf"@));
        assert(lookup(kw2, "oneOf"@) == lookup(kw, "oneOf"@));
        assert(lookup(kw2, "not"@) == lookup(kw, "not"@));
        match inst {
            Json::Object(m) => {
                lemma_members_ignore(root, kw, kw2, m@, path, f, m@.len() as int);
            },
            _ => {},
        }
        assert(keyword_findings(root, kw2, inst, path, f) == keyword_findings(root, kw, inst, path, f));
        assert(keywords_halt(root, kw2, inst, path, f) == keywords_halt(root, kw, inst, path, f));
    }
}

/// The same, of what `check` reports: the two finish on the same instances,
/// and report the same where they do.
pub proof fn law_unknown_keywords_ignored_by_check(root: Json, schema: Json, other: Json, inst: Json, path: Seq<char>)
    requires
        schema matches Json::Object(kw) && other matches Json::Object(kw2) && same_keywords(kw@, kw2@),
    ensures
        terminates(root, other, inst, path) == terminates(root, schema, inst, path),
        terminates(root, schema, inst, path) ==> check_findings(root, other, inst, path) == check_findings(
            root,
            schema,
            inst,
            path,
        ),
{
    if terminates(root, schema, inst, path) {
        let f = choose|g: nat| halts(root, schema, inst, path, g);
        law_unknown_keywords_ignored(root, schema, other, inst, path, f);
        law_check_is_any_finishing_evaluation(root, schema, inst, path, f);
        law_check_is_any_finishing_evaluation(root, other, inst, path, f);
    }
    if terminates(root, other, inst, path) {
        let f = choose|g: nat| halts(root, other, inst, path, g);
        law_unknown_keywords_ignored(root, schema, other, inst, path, f);
        assert(halts(root, schema, inst, path, f));
    }
}

proof fn lemma_lookup_insert(kw: Seq<(String, Json)>, i: int, e: (String, Json), key: Seq<char>)
    requires
        0 <= i <= kw.len(),
        e.0@ != key,
    ensures
        lookup(kw.insert(i, e), key) == lookup(kw, key),
    decreases kw.len(),
{
    let w = kw.insert(i, e);
    if i == 0 {
        assert(w[0] == e);
        assert(w.drop_first() =~= kw);
    } else {
        assert(w[0] == kw[0]);
        assert(w.drop_first() =~= kw.drop_first().insert(i - 1, e));
        lemma_lookup_insert(kw.drop_first(), i - 1, e, key);
    }
}

proof fn lemma_lookup_update(kw: Seq<(String, Json)>, i: int, v: Json, key: Seq<char>)
    requires
        0 <= i < kw.len(),
        kw[i].0@ != key,
    ensures
        lookup(kw.update(i, (kw[i].0, v)), key) == lookup(kw, key),
    decreases kw.len(),
{
    let w = kw.update(i, (kw[i].0, v));
    if i == 0 {
        assert(w[0].0 == kw[0].0);
        assert(w.drop_first() =~= kw.drop_first());
    } else {
        assert(w[0] == kw[0]);
        assert(w.drop_first() =~= kw.drop_first().update(i - 1, (kw[i].0, v)));
        lemma_lookup_update(kw.drop_first(), i - 1, v, key);
    }
}

/// A member whose name is not a keyword, added at any place among a schema
/// object's members, leaves every keyword as it was.
pub proof fn law_unknown_member_added(kw: Seq<(String, Json)>, i: int, e: (String, Json))
    requires
        0 <= i <= kw.len(),
        !is_keyword(e.0@),
    ensures
        same_keywords(kw, kw.insert(i, e)),
        same_keywords(kw.insert(i, e), kw),
{
    assert forall|key: Seq<char>| is_keyword(key) implies #[trigger] lookup(kw.insert(i, e), key) == lookup(kw, key) by {
        lemma_lookup_insert(kw, i, e, key);
    }
}

/// A member whose name is not a keyword, given any other value, leaves every
/// keyword as it was.
pub proof fn law_unknown_member_replaced(kw: Seq<(String, Json)>, i: int, v: Json)
    requires
        0 <= i < kw.len(),
        !is_keyword(kw[i].0@),
    ensures
        same_keywords(kw, kw.update(i, (kw[i].0, v))),
{
    assert forall|key: Seq<char>| is_keyword(key) implies #[trigger] lookup(kw.update(i, (kw[i].0, v)), key) == lookup(
        kw,
        key,
    ) by {
        lemma_lookup_update(kw, i, v, key);
    }
}

/// The codes an issue can carry: a keyword of the vocabulary, or `false`
/// for the schema that admits nothing.
pub open spec fn is_code(code: Seq<char>) -> bool {
    code == "false"@ || is_keyword(code)
}

/// `at` lies at or below the instance location `path` (every location lies
/// below the root, whose location is empty).
pub open spec fn within(path: Seq<char>, at: Seq<char>) -> bool {
    if path.len() == 0 {
        at.len() > 0 && at[0] == '/'
    } else {
        path.is_prefix_of(at)
    }
}

/// An issue reported while evaluating at `path`: its code is a keyword and
/// its location lies at or below `path`.
pub open spec fn placed_one(x: Finding, path: Seq<char>) -> bool {
    is_code(x.code) && (x.path matches Some(at) && within(path, at))
}

/// Every issue of `s` is placed at or below `path`.
pub open spec fn placed(s: Seq<Finding>, path: Seq<char>) -> bool {
    forall|i: int| 0 <= i < s.len() ==> #[trigger] placed_one(s[i], path)
}

proof fn lemma_placed_concat(a: Seq<Finding>, b: Seq<Finding>, path: Seq<char>)
    requires
        placed(a, path),
        placed(b, path),
    ensures
        placed(a + b, path),
{
    assert forall|i: int| 0 <= i < (a + b).len() implies #[trigger] placed_one((a + b)[i], path) by {
        if i < a.len() {
            assert((a + b)[i] == a[i]);
        } else {
            assert((a + b)[i] == b[i - a.len()]);
        }
    }
}

proof fn lemma_finding_placed(code: Seq<char>, message: Seq<char>, path: Seq<char>)
    requires
        is_code(code),
    ensures
        placed(seq![finding(code, message, path)], path),
{
    reveal_strlit("/");
    assert(placed_one(finding(code, message, path), path));
}

proof fn lemma_child_finding_placed(code: Seq<char>, message: Seq<char>, path: Seq<char>, name: Seq<char>)
    requires
        is_code(code),
    ensures
        placed(seq![finding(code, message, child(path, name))], path),
{
    reveal_strlit("/");
    let c = child(path, name);
    assert(c.len() > 0);
    assert(issue_path(c) == c);
    if path.len() > 0 {
        assert(c.take(path.len() as int) =~= path);
    } else {
        assert(c[0] == '/');
    }
    assert(placed_one(finding(code, message, c), path));
}

proof fn lemma_lift(s: Seq<Finding>, path: Seq<char>, name: Seq<char>)
    requires
        placed(s, child(path, name)),
    ensures
        placed(s, path),
{
    reveal_strlit("/");
    let c = child(path, name);
    assert forall|i: int| 0 <= i < s.len() implies #[trigger] placed_one(s[i], path) by {
        assert(placed_one(s[i], c));
        let at = s[i].path->Some_0;
        assert(c.is_prefix_of(at));
        if path.len() > 0 {
            assert(at.take(path.len() as int) =~= c.take(path.len() as int));
            assert(c.take(path.len() as int) =~= path);
        } else {
            assert(at[0] == c[0]);
        }
    }
}

proof fn lemma_size_placed(
    kw: Seq<(String, Json)>,
    size: nat,
    path: Seq<char>,
    lower: Seq<char>,
    upper: Seq<char>,
    before: Seq<char>,
    unit: Seq<char>,
)
    requires
        is_code(lower),
        is_code(upper),
    ensures
        placed(size_findings(kw, size, path, lower, upper, before, unit), path),
{
    lemma_finding_placed(lower, before + crate::text::decimal(size) + unit + ", at least "@, path);
    let x = size_findings(kw, size, path, lower, upper, before, unit);
    assert forall|i: int| 0 <= i < x.len() implies #[trigger] placed_one(x[i], path) by {
        reveal_strlit("/");
    }
}

proof fn lemma_bound_placed(kw: Seq<(String, Json)>, name: Seq<char>, value: i64, shown: Seq<char>, below: bool, strict: bool, path: Seq<char>)
    requires
        is_code(name),
    ensures
        placed(bound_finding(kw, name, value, shown, below, strict, path), path),
{
    let x = bound_finding(kw, name, value, shown, below, strict, path);
    assert forall|i: int| 0 <= i < x.len() implies #[trigger] placed_one(x[i], path) by {
        reveal_strlit("/");
    }
}

proof fn lemma_local_placed(kw: Seq<(String, Json)>, inst: Json, path: Seq<char>)
    ensures
        placed(type_findings(kw, inst, path), path),
        placed(value_findings(kw, inst, path), path),
        placed(string_findings(kw, inst, path), path),
        placed(number_findings(kw, inst, path), path),
{
    reveal_strlit("/");
    let t = type_findings(kw, inst, path);
    assert forall|i: int| 0 <= i < t.len() implies #[trigger] placed_one(t[i], path) by {}
    let v = value_findings(kw, inst, path);
    assert forall|i: int| 0 <= i < v.len() implies #[trigger] placed_one(v[i], path) by {}
    lemma_size_placed(kw, 0, path, "minLength"@, "maxLength"@, "is "@, " characters"@);
    match inst {
        Json::Text(s) => lemma_size_placed(kw, s@.len(), path, "minLength"@, "maxLength"@, "is "@, " characters"@),
        _ => {},
    }
    match inst {
        Json::Number(n) => {
            lemma_bound_placed(kw, "minimum"@, n.order, n.shown@, true, false, path);
            lemma_bound_placed(kw, "maximum"@, n.order, n.shown@, false, false, path);
            lemma_bound_placed(kw, "exclusiveMinimum"@, n.order, n.shown@, true, true, path);
            lemma_bound_placed(kw, "exclusiveMaximum"@, n.order, n.shown@, false, true, path);
            lemma_placed_concat(
                bound_finding(kw, "minimum"@, n.order, n.shown@, true, false, path),
                bound_finding(kw, "maximum"@, n.order, n.shown@, false, false, path),
                path,
            );
            lemma_placed_concat(
                bound_finding(kw, "minimum"@, n.order, n.shown@, true, false, path)
                    + bound_finding(kw, "maximum"@, n.order, n.shown@, false, false, path),
                bound_finding(kw, "exclusiveMinimum"@, n.order, n.shown@, true, true, path),
                path,
            );
            lemma_placed_concat(
                bound_finding(kw, "minimum"@, n.order, n.shown@, true, false, path)
                    + bound_finding(kw, "maximum"@, n.order, n.shown@, false, false, path)
                    + bound_finding(kw, "exclusiveMinimum"@, n.order, n.shown@, true, true, path),
                bound_finding(kw, "exclusiveMaximum"@, n.order, n.shown@, false, true, path),
                path,
            );
        },
        _ => {},
    }
}

proof fn lemma_required_placed(reqs: Seq<Json>, members: Seq<(String, Json)>, path: Seq<char>, n: int)
    ensures
        placed(required_findings(reqs, members, path, n), path),
    decreases n,
{
    if n > 0 && n <= reqs.len() {
        lemma_required_placed(reqs, members, path, n - 1);
        match reqs[n - 1] {
            Json::Text(name) => {
                lemma_child_finding_placed("required"@, "missing property "@ + name@, path, name@);
                lemma_placed_concat(
                    required_findings(reqs, members, path, n - 1),
                    seq![finding("required"@, "missing property "@ + name@, child(path, name@))],
                    path,
                );
            },
            _ => {
                assert(required_findings(reqs, members, path, n - 1) + Seq::<Finding>::empty() =~= required_findings(
                    reqs,
                    members,
                    path,
                    n - 1,
                ));
            },
        }
    }
}


proof fn lemma_eval_placed(root: Json, schema: Json, inst: Json, path: Seq<char>, fuel: nat)
    ensures
        placed(evaluate(root, schema, inst, path, fuel), path),
    decreases fuel, 0nat, 0int,
{
    if fuel > 0 {
        match schema {
            Json::Bool(b) => {
                if !b {
                    lemma_finding_placed("false"@, "nothing is allowed here"@, path);
                }
            },
            Json::Object(kw) => lemma_keywords_placed(root, kw@, inst, path, (fuel - 1) as nat),
            _ => {},
        }
    }
}

proof fn lemma_keywords_placed(root: Json, kw: Seq<(String, Json)>, inst: Json, path: Seq<char>, f: nat)
    ensures
        placed(keyword_findings(root, kw, inst, path, f), path),
    decreases f, 3nat, 0int,
{
    lemma_ref_placed(root, kw, inst, path, f);
    lemma_local_placed(kw, inst, path);
    lemma_object_placed(root, kw, inst, path, f);
    lemma_array_placed(root, kw, inst, path, f);
    lemma_composition_placed(root, kw, inst, path, f);
    let a = ref_findings(root, kw, inst, path, f);
    let b = type_findings(kw, inst, path);
    let c = value_findings(kw, inst, path);
    let d = object_findings(root, kw, inst, path, f);
    let e = array_findings(root, kw, inst, path, f);
    let g = string_findings(kw, inst, path);
    let h = number_findings(kw, inst, path);
    let k = composition_findings(root, kw, inst, path, f);
    lemma_placed_concat(a, b, path);
    lemma_placed_concat(a + b, c, path);
    lemma_placed_concat(a + b + c, d, path);
    lemma_placed_concat(a + b + c + d, e, path);
    lemma_placed_concat(a + b + c + d + e, g, path);
    lemma_placed_concat(a + b + c + d + e + g, h, path);
    lemma_placed_concat(a + b + c + d + e + g + h, k, path);
}

proof fn lemma_ref_placed(root: Json, kw: Seq<(String, Json)>, inst: Json, path: Seq<char>, f: nat)
    ensures
        placed(ref_findings(root, kw, inst, path, f), path),
    decreases f, 1nat, 0int,
{
    match ref_target(kw) {
        Some(r) => match resolve(root, r) {
            Some(t) => lemma_eval_placed(root, t, inst, path, f),
            None => lemma_finding_placed("$ref"@, "unresolvable "@ + r, path),
        },
        None => {},
    }
}

proof fn lemma_member_placed(
    root: Json,
    kw: Seq<(String, Json)>,
    name: Seq<char>,
    value: Json,
    path: Seq<char>,
    f: nat,
)
    ensures
        placed(member_findings(root, kw, name, value, path, f), path),
    decreases f, 1nat, 0int,
{
    let at = child(path, name);
    match declared(properties_of(kw), name) {
        Some(sub) => {
            lemma_eval_placed(root, sub, value, at, f);
            lemma_lift(evaluate(root, sub, value, at, f), path, name);
        },
        None => match lookup(kw, "additionalProperties"@) {
            Some(Json::Bool(false)) => {
                lemma_child_finding_placed("additionalProperties"@, "is not a declared property"@, path, name);
            },
            Some(a) => {
                if a is Object {
                    lemma_eval_placed(root, a, value, at, f);
                    lemma_lift(evaluate(root, a, value, at, f), path, name);
                }
            },
            None => {},
        },
    }
}

proof fn lemma_members_placed(
    root: Json,
    kw: Seq<(String, Json)>,
    members: Seq<(String, Json)>,
    path: Seq<char>,
    f: nat,
    n: int,
)
    ensures
        placed(members_findings(root, kw, members, path, f, n), path),
    decreases f, 1nat, n,
{
    if n > 0 && n <= members.len() {
        lemma_members_placed(root, kw, members, path, f, n - 1);
        lemma_member_placed(root, kw, members[n - 1].0@, members[n - 1].1, path, f);
        lemma_placed_concat(
            members_findings(root, kw, members, path, f, n - 1),
            member_findings(root, kw, members[n - 1].0@, members[n - 1].1, path, f),
            path,
        );
    }
}

proof fn lemma_object_placed(root: Json, kw: Seq<(String, Json)>, inst: Json, path: Seq<char>, f: nat)
    ensures
        placed(object_findings(root, kw, inst, path, f), path),
    decreases f, 2nat, 0int,
{
    match inst {
        Json::Object(m) => {
            match lookup(kw, "required"@) {
                Some(Json::Array(r)) => lemma_required_placed(r@, m@, path, r@.len() as int),
                _ => {},
            }
            lemma_members_placed(root, kw, m@, path, f, m@.len() as int);
            lemma_placed_concat(
                required_part(kw, m@, path),
                members_findings(root, kw, m@, path, f, m@.len() as int),
                path,
            );
        },
        _ => {},
    }
}

proof fn lemma_items_placed(root: Json, sub: Json, items: Seq<Json>, path: Seq<char>, f: nat, n: int)
    ensures
        placed(items_findings(root, sub, items, path, f, n), path),
    decreases f, 1nat, n,
{
    if n > 0 && n <= items.len() {
        let at = child(path, decimal((n - 1) as nat));
        lemma_items_placed(root, sub, items, path, f, n - 1);
        lemma_eval_placed(root, sub, items[n - 1], at, f);
        lemma_lift(evaluate(root, sub, items[n - 1], at, f), path, decimal((n - 1) as nat));
        lemma_placed_concat(
            items_findings(root, sub, items, path, f, n - 1),
            evaluate(root, sub, items[n - 1], at, f),
            path,
        );
    }
}

proof fn lemma_array_placed(root: Json, kw: Seq<(String, Json)>, inst: Json, path: Seq<char>, f: nat)
    ensures
        placed(array_findings(root, kw, inst, path, f), path),
    decreases f, 2nat, 0int,
{
    match inst {
        Json::Array(items) => {
            lemma_size_placed(kw, items@.len(), path, "minItems"@, "maxItems"@, "has "@, " items"@);
            match lookup(kw, "items"@) {
                Some(sub) => {
                    lemma_items_placed(root, sub, items@, path, f, items@.len() as int);
                    lemma_placed_concat(
                        size_findings(kw, items@.len(), path, "minItems"@, "maxItems"@, "has "@, " items"@),
                        items_findings(root, sub, items@, path, f, items@.len() as int),
                        path,
                    );
                },
                None => {
                    lemma_placed_concat(
                        size_findings(kw, items@.len(), path, "minItems"@, "maxItems"@, "has "@, " items"@),
                        Seq::empty(),
                        path,
                    );
                },
            }
        },
        _ => {},
    }
}

proof fn lemma_all_placed(root: Json, bs: Seq<Json>, inst: Json, path: Seq<char>, f: nat, n: int)
    ensures
        placed(all_findings(root, bs, inst, path, f, n), path),
    decreases f, 1nat, n,
{
    if n > 0 && n <= bs.len() {
        lemma_all_placed(root, bs, inst, path, f, n - 1);
        lemma_eval_placed(root, bs[n - 1], inst, path, f);
        lemma_placed_concat(
            all_findings(root, bs, inst, path, f, n - 1),
            evaluate(root, bs[n - 1], inst, path, f),
            path,
        );
    }
}

proof fn lemma_composition_placed(root: Json, kw: Seq<(String, Json)>, inst: Json, path: Seq<char>, f: nat)
    ensures
        placed(composition_findings(root, kw, inst, path, f), path),
    decreases f, 2nat, 0int,
{
    let all = branches(kw, "allOf"@);
    let any = branches(kw, "anyOf"@);
    let one = branches(kw, "oneOf"@);
    let count = match_count(root, one, inst, path, f, one.len() as int);
    lemma_all_placed(root, all, inst, path, f, all.len() as int);
    let a = all_findings(root, all, inst, path, f, all.len() as int);
    let b: Seq<Finding> = if any.len() > 0 && !matches_any(root, any, inst, path, f, 0) {
        seq![finding("anyOf"@, "matches none of the alternatives"@, path)]
    } else {
        seq![]
    };
    let c: Seq<Finding> = if one.len() > 0 && count != 1 {
        seq![finding("oneOf"@, "matches "@ + decimal(count) + " alternatives, exactly one required"@, path)]
    } else {
        seq![]
    };
    let d: Seq<Finding> = match lookup(kw, "not"@) {
        Some(x) => if evaluate(root, x, inst, path, f).len() == 0 {
            seq![finding("not"@, "matches a schema it must not"@, path)]
        } else {
            seq![]
        },
        None => seq![],
    };
    lemma_finding_placed("anyOf"@, "matches none of the alternatives"@, path);
    lemma_finding_placed("oneOf"@, "matches "@ + decimal(count) + " alternatives, exactly one required"@, path);
    lemma_finding_placed("not"@, "matches a schema it must not"@, path);
    lemma_placed_concat(a, b, path);
    lemma_placed_concat(a + b, c, path);
    lemma_placed_concat(a + b + c, d, path);
    assert(composition_findings(root, kw, inst, path, f) == a + b + c + d);
}

/// Every issue names the keyword that refused (or `false`) and lies at or below
/// the instance location where evaluation started: the issues of an
/// evaluation at `/lines` all point into `/lines`.
pub proof fn law_issues_placed(root: Json, schema: Json, inst: Json, path: Seq<char>, fuel: nat)
    ensures
        placed(evaluate(root, schema, inst, path, fuel), path),
{
    lemma_eval_placed(root, schema, inst, path, fuel);
}

/// The same, of what `check` reports.
pub proof fn law_check_issues_placed(root: Json, schema: Json, inst: Json, path: Seq<char>)
    requires
        terminates(root, schema, inst, path),
    ensures
        placed(check_findings(root, schema, inst, path), path),
{
    let fuel = choose|fuel: nat| halts(root, schema, inst, path, fuel);
    lemma_eval_placed(root, schema, inst, path, fuel);
}


proof fn lemma_eval_stable(root: Json, schema: Json, inst: Json, path: Seq<char>, f1: nat, f2: nat)
    requires
        halts(root, schema, inst, path, f1),
        f1 <= f2,
    ensures
        halts(root, schema, inst, path, f2),
        evaluate(root, schema, inst, path, f1) == evaluate(root, schema, inst, path, f2),
    decreases f1, 0nat, 0int,
{
    match schema {
        Json::Object(kw) => lemma_keywords_stable(root, kw@, inst, path, (f1 - 1) as nat, (f2 - 1) as nat),
        _ => {},
    }
}

proof fn lemma_keywords_stable(root: Json, kw: Seq<(String, Json)>, inst: Json, path: Seq<char>, f1: nat, f2: nat)
    requires
        keywords_halt(root, kw, inst, path, f1),
        f1 <= f2,
    ensures
        keywords_halt(root, kw, inst, path, f2),
        keyword_findings(root, kw, inst, path, f1) == keyword_findings(root, kw, inst, path, f2),
    decreases f1, 3nat, 0int,
{
    lemma_ref_stable(root, kw, inst, path, f1, f2);
    lemma_object_stable(root, kw, inst, path, f1, f2);
    lemma_array_stable(root, kw, inst, path, f1, f2);
    lemma_composition_stable(root, kw, inst, path, f1, f2);
}

proof fn lemma_ref_stable(root: Json, kw: Seq<(String, Json)>, inst: Json, path: Seq<char>, f1: nat, f2: nat)
    requires
        ref_halts(root, kw, inst, path, f1),
        f1 <= f2,
    ensures
        ref_halts(root, kw, inst, path, f2),
        ref_findings(root, kw, inst, path, f1) == ref_findings(root, kw, inst, path, f2),
    decreases f1, 1nat, 0int,
{
    match ref_target(kw) {
        Some(r) => match resolve(root, r) {
            Some(t) => lemma_eval_stable(root, t, inst, path, f1, f2),
            None => {},
        },
        None => {},
    }
}

proof fn lemma_member_stable(
    root: Json,
    kw: Seq<(String, Json)>,
    name: Seq<char>,
    value: Json,
    path: Seq<char>,
    f1: nat,
    f2: nat,
)
    requires
        member_halts(root, kw, name, value, path, f1),
        f1 <= f2,
    ensures
        member_halts(root, kw, name, value, path, f2),
        member_findings(root, kw, name, value, path, f1) == member_findings(root, kw, name, value, path, f2),
    decreases f1, 1nat, 0int,
{
    let at = child(path, name);
    match declared(properties_of(kw), name) {
        Some(sub) => lemma_eval_stable(root, sub, value, at, f1, f2),
        None => match lookup(kw, "additionalProperties"@) {
            Some(a) => {
                if a is Object {
                    lemma_eval_stable(root, a, value, at, f1, f2);
                }
            },
            None => {},
        },
    }
}

proof fn lemma_members_stable(
    root: Json,
    kw: Seq<(String, Json)>,
    members: Seq<(String, Json)>,
    path: Seq<char>,
    f1: nat,
    f2: nat,
    n: int,
)
    requires
        members_halt(root, kw, members, path, f1, n),
        f1 <= f2,
    ensures
        members_halt(root, kw, members, path, f2, n),
        members_findings(root, kw, members, path, f1, n) == members_findings(root, kw, members, path, f2, n),
    decreases f1, 1nat, n,
{
    if n > 0 && n <= members.len() {
        lemma_members_stable(root, kw, members, path, f1, f2, n - 1);
        lemma_member_stable(root, kw, members[n - 1].0@, members[n - 1].1, path, f1, f2);
    }
}

proof fn lemma_object_stable(root: Json, kw: Seq<(String, Json)>, inst: Json, path: Seq<char>, f1: nat, f2: nat)
    requires
        object_halts(root, kw, inst, path, f1),
        f1 <= f2,
    ensures
        object_halts(root, kw, inst, path, f2),
        object_findings(root, kw, inst, path, f1) == object_findings(root, kw, inst, path, f2),
    decreases f1, 2nat, 0int,
{
    match inst {
        Json::Object(m) => lemma_members_stable(root, kw, m@, path, f1, f2, m@.len() as int),
        _ => {},
    }
}

proof fn lemma_items_stable(root: Json, sub: Json, items: Seq<Json>, path: Seq<char>, f1: nat, f2: nat, n: int)
    requires
        items_halt(root, sub, items, path, f1, n),
        f1 <= f2,
    ensures
        items_halt(root, sub, items, path, f2, n),
        items_findings(root, sub, items, path, f1, n) == items_findings(root, sub, items, path, f2, n),
    decreases f1, 1nat, n,
{
    if n > 0 && n <= items.len() {
        lemma_items_stable(root, sub, items, path, f1, f2, n - 1);
        lemma_eval_stable(root, sub, items[n - 1], child(path, decimal((n - 1) as nat)), f1, f2);
    }
}

proof fn lemma_array_stable(root: Json, kw: Seq<(String, Json)>, inst: Json, path: Seq<char>, f1: nat, f2: nat)
    requires
        array_halts(root, kw, inst, path, f1),
        f1 <= f2,
    ensures
        array_halts(root, kw, inst, path, f2),
        array_findings(root, kw, inst, path, f1) == array_findings(root, kw, inst, path, f2),
    decreases f1, 2nat, 0int,
{
    match inst {
        Json::Array(items) => match lookup(kw, "items"@) {
            Some(sub) => lemma_items_stable(root, sub, items@, path, f1, f2, items@.len() as int),
            None => {},
        },
        _ => {},
    }
}

proof fn lemma_all_stable(root: Json, bs: Seq<Json>, inst: Json, path: Seq<char>, f1: nat, f2: nat, n: int)
    requires
        all_halt(root, bs, inst, path, f1, n),
        f1 <= f2,
    ensures
        all_halt(root, bs, inst, path, f2, n),
        all_findings(root, bs, inst, path, f1, n) == all_findings(root, bs, inst, path, f2, n),
        match_count(root, bs, inst, path, f1, n) == match_count(root, bs, inst, path, f2, n),
    decreases f1, 1nat, n,
{
    if n > 0 && n <= bs.len() {
        lemma_all_stable(root, bs, inst, path, f1, f2, n - 1);
        lemma_eval_stable(root, bs[n - 1], inst, path, f1, f2);
    }
}

proof fn lemma_any_stable(root: Json, bs: Seq<Json>, inst: Json, path: Seq<char>, f1: nat, f2: nat, i: int)
    requires
        any_halts(root, bs, inst, path, f1, i),
        f1 <= f2,
    ensures
        any_halts(root, bs, inst, path, f2, i),
        matches_any(root, bs, inst, path, f1, i) == matches_any(root, bs, inst, path, f2, i),
    decreases f1, 1nat, bs.len() - i,
{
    if 0 <= i < bs.len() {
        lemma_eval_stable(root, bs[i], inst, path, f1, f2);
        if evaluate(root, bs[i], inst, path, f1).len() != 0 {
            lemma_any_stable(root, bs, inst, path, f1, f2, i + 1);
        }
    }
}

proof fn lemma_composition_stable(root: Json, kw: Seq<(String, Json)>, inst: Json, path: Seq<char>, f1: nat, f2: nat)
    requires
        composition_halts(root, kw, inst, path, f1),
        f1 <= f2,
    ensures
        composition_halts(root, kw, inst, path, f2),
        composition_findings(root, kw, inst, path, f1) == composition_findings(root, kw, inst, path, f2),
    decreases f1, 2nat, 0int,
{
    let all = branches(kw, "allOf"@);
    let any = branches(kw, "anyOf"@);
    let one = branches(kw, "oneOf"@);
    lemma_all_stable(root, all, inst, path, f1, f2, all.len() as int);
    lemma_any_stable(root, any, inst, path, f1, f2, 0);
    lemma_all_stable(root, one, inst, path, f1, f2, one.len() as int);
    match lookup(kw, "not"@) {
        Some(x) => lemma_eval_stable(root, x, inst, path, f1, f2),
        None => {},
    }
}

/// An evaluation that finishes reports the same whatever depth bound it is
/// given beyond the one it needs, so what `check` reports is determined by
/// the schema, the instance and the location alone.
pub proof fn law_evaluation_is_determined(
    root: Json,
    schema: Json,
    inst: Json,
    path: Seq<char>,
    f1: nat,
    f2: nat,
)
    requires
        halts(root, schema, inst, path, f1),
        f1 <= f2,
    ensures
        halts(root, schema, inst, path, f2),
        evaluate(root, schema, inst, path, f1) == evaluate(root, schema, inst, path, f2),
{
    lemma_eval_stable(root, schema, inst, path, f1, f2);
}

/// What `check` reports is what an evaluation with any sufficient depth bound reports.
pub proof fn law_check_is_any_finishing_evaluation(root: Json, schema: Json, inst: Json, path: Seq<char>, fuel: nat)
    requires
        halts(root, schema, inst, path, fuel),
    ensures
        terminates(root, schema, inst, path),
        check_findings(root, schema, inst, path) == evaluate(root, schema, inst, path, fuel),
{
    let chosen = choose|g: nat| halts(root, schema, inst, path, g);
    if chosen <= fuel {
        lemma_eval_stable(root, schema, inst, path, chosen, fuel);
    } else {
        lemma_eval_stable(root, schema, inst, path, fuel, chosen);
    }
}


/// How deeply a value nests: 0 for a scalar, one more than its deepest
/// element or member value for an array or object.
pub open spec fn height(j: Json) -> nat
    decreases j,
{
    match j {
        Json::Array(v) => 1 + items_height(v@, v@.len() as int),
        Json::Object(m) => 1 + members_height(m@, m@.len() as int),
        _ => 0,
    }
}

/// The greatest height among the first `n` elements.
pub open spec fn items_height(v: Seq<Json>, n: int) -> nat
    decreases v, n,
{
    if n <= 0 || n > v.len() {
        0
    } else {
        let a = items_height(v, n - 1);
        let b = height(v[n - 1]);
        if a >= b { a } else { b }
    }
}

/// The greatest height among the values of the first `n` members.
pub open spec fn members_height(m: Seq<(String, Json)>, n: int) -> nat
    decreases m, n,
{
    if n <= 0 || n > m.len() {
        0
    } else {
        let a = members_height(m, n - 1);
        let b = height(m[n - 1].1);
        if a >= b { a } else { b }
    }
}

/// No object in `j`, at any depth, has a member named `$ref`.
pub open spec fn ref_free(j: Json) -> bool
    decreases j,
{
    match j {
        Json::Array(v) => items_ref_free(v@, v@.len() as int),
        Json::Object(m) => !has_key(m@, "$ref"@) && members_ref_free(m@, m@.len() as int),
        _ => true,
    }
}

/// The first `n` elements are free of `$ref`.
pub open spec fn items_ref_free(v: Seq<Json>, n: int) -> bool
    decreases v, n,
{
    n <= 0 || n > v.len() || (items_ref_free(v, n - 1) && ref_free(v[n - 1]))
}

/// The values of the first `n` members are free of `$ref`.
pub open spec fn members_ref_free(m: Seq<(String, Json)>, n: int) -> bool
    decreases m, n,
{
    n <= 0 || n > m.len() || (members_ref_free(m, n - 1) && ref_free(m[n - 1].1))
}

proof fn lemma_item_below(v: Seq<Json>, n: int, k: int)
    requires
        0 <= k < n <= v.len(),
    ensures
        height(v[k]) <= items_height(v, n),
    decreases n,
{
    if k < n - 1 {
        lemma_item_below(v, n - 1, k);
    }
}

proof fn lemma_member_below(m: Seq<(String, Json)>, n: int, k: int)
    requires
        0 <= k < n <= m.len(),
    ensures
        height(m[k].1) <= members_height(m, n),
    decreases n,
{
    if k < n - 1 {
        lemma_member_below(m, n - 1, k);
    }
}

proof fn lemma_lookup_index(m: Seq<(String, Json)>, key: Seq<char>)
    ensures
        lookup(m, key) matches Some(v) ==> exists|k: int| 0 <= k < m.len() && m[k].1 == v,
    decreases m.len(),
{
    if m.len() > 0 && m[0].0@ != key {
        lemma_lookup_index(m.drop_first(), key);
        if let Some(v) = lookup(m, key) {
            let k = choose|k: int| 0 <= k < m.drop_first().len() && m.drop_first()[k].1 == v;
            assert(m[k + 1].1 == v);
        }
    }
}

/// A keyword's value lies lower in the schema object.
proof fn lemma_keyword_below(kw: Seq<(String, Json)>, key: Seq<char>)
    ensures
        lookup(kw, key) matches Some(v) ==> height(v) < height_of_members(kw),
{
    lemma_lookup_index(kw, key);
    if let Some(v) = lookup(kw, key) {
        let k = choose|k: int| 0 <= k < kw.len() && kw[k].1 == v;
        lemma_member_below(kw, kw.len() as int, k);
    }
}

/// The height of an object with members `m`.
pub open spec fn height_of_members(m: Seq<(String, Json)>) -> nat {
    1 + members_height(m, m.len() as int)
}

proof fn lemma_branches_below(kw: Seq<(String, Json)>, key: Seq<char>, i: int)
    requires
        0 <= i < branches(kw, key).len(),
    ensures
        height(branches(kw, key)[i]) + 2 <= height_of_members(kw),
{
    lemma_keyword_below(kw, key);
    match lookup(kw, key) {
        Some(Json::Array(b)) => lemma_item_below(b@, b@.len() as int, i),
        _ => {},
    }
}

proof fn lemma_finishes_with_more(root: Json, schema: Json, inst: Json, path: Seq<char>, f1: nat, f2: nat)
    requires
        halts(root, schema, inst, path, f1),
        f1 <= f2,
    ensures
        halts(root, schema, inst, path, f2),
{
    lemma_eval_stable(root, schema, inst, path, f1, f2);
}

/// Following `$ref`s from `j` chains at most `k` deep: every `$ref` string of
/// an object in `j`, at any depth, either resolves to nothing or to a value
/// from which they chain at most `k - 1` deep. The `$ref`s of a document form
/// no cycle exactly when some such `k` exists.
pub open spec fn refs_settle(root: Json, j: Json, k: nat) -> bool
    decreases k, j, 0int,
{
    match j {
        Json::Array(v) => items_settle(root, v@, k, v@.len() as int),
        Json::Object(m) => (match ref_target(m@) {
            Some(r) => match resolve(root, r) {
                Some(t) => if k == 0 {
                    false
                } else {
                    refs_settle(root, t, (k - 1) as nat)
                },
                None => true,
            },
            None => true,
        }) && members_settle(root, m@, k, m@.len() as int),
        _ => true,
    }
}

/// `$ref`s chain at most `k` deep from each of the first `n` elements.
pub open spec fn items_settle(root: Json, v: Seq<Json>, k: nat, n: int) -> bool
    decreases k, v, n,
{
    n <= 0 || n > v.len() || (items_settle(root, v, k, n - 1) && refs_settle(root, v[n - 1], k))
}

/// `$ref`s chain at most `k` deep from each of the values of the first `n` members.
pub open spec fn members_settle(root: Json, m: Seq<(String, Json)>, k: nat, n: int) -> bool
    decreases k, m, n,
{
    n <= 0 || n > m.len() || (members_settle(root, m, k, n - 1) && refs_settle(root, m[n - 1].1, k))
}

/// The nested evaluations that `$ref`s chaining at most `k` deep can add.
pub open spec fn ref_budget(root: Json, k: nat) -> nat {
    k * (height(root) + 1)
}

proof fn lemma_budget_step(root: Json, k: nat)
    requires
        k > 0,
    ensures
        ref_budget(root, k) == ref_budget(root, (k - 1) as nat) + height(root) + 1,
{
    let h = height(root) + 1;
    assert(k * h == (k - 1) * h + h) by (nonlinear_arith);
}

proof fn lemma_item_settled(root: Json, v: Seq<Json>, k: nat, n: int, j: int)
    requires
        0 <= j < n <= v.len(),
        items_settle(root, v, k, n),
    ensures
        refs_settle(root, v[j], k),
    decreases n,
{
    if j < n - 1 {
        lemma_item_settled(root, v, k, n - 1, j);
    }
}

proof fn lemma_member_settled(root: Json, m: Seq<(String, Json)>, k: nat, n: int, j: int)
    requires
        0 <= j < n <= m.len(),
        members_settle(root, m, k, n),
    ensures
        refs_settle(root, m[j].1, k),
    decreases n,
{
    if j < n - 1 {
        lemma_member_settled(root, m, k, n - 1, j);
    }
}

/// A keyword's value lies lower in a settled schema object and is settled with it.
proof fn lemma_keyword_settled(root: Json, kw: Seq<(String, Json)>, k: nat, key: Seq<char>)
    requires
        members_settle(root, kw, k, kw.len() as int),
    ensures
        lookup(kw, key) matches Some(v) ==> height(v) < height_of_members(kw) && refs_settle(root, v, k),
{
    lemma_keyword_below(kw, key);
    lemma_lookup_index(kw, key);
    if let Some(v) = lookup(kw, key) {
        let j = choose|j: int| 0 <= j < kw.len() && kw[j].1 == v;
        lemma_member_settled(root, kw, k, kw.len() as int, j);
    }
}

proof fn lemma_branches_settled(root: Json, kw: Seq<(String, Json)>, k: nat, key: Seq<char>, i: int)
    requires
        members_settle(root, kw, k, kw.len() as int),
        0 <= i < branches(kw, key).len(),
    ensures
        height(branches(kw, key)[i]) + 2 <= height_of_members(kw),
        refs_settle(root, branches(kw, key)[i], k),
{
    lemma_branches_below(kw, key, i);
    lemma_keyword_settled(root, kw, k, key);
    match lookup(kw, key) {
        Some(Json::Array(b)) => lemma_item_settled(root, b@, k, b@.len() as int, i),
        _ => {},
    }
}

/// One step of a pointer goes lower in a value.
proof fn lemma_step_below(target: Json, token: Seq<char>)
    ensures
        step(target, token) matches Some(x) ==> height(x) < height(target),
{
    match target {
        Json::Object(m) => {
            lemma_lookup_index(m@, token);
            if let Some(x) = lookup(m@, token) {
                let j = choose|j: int| 0 <= j < m@.len() && m@[j].1 == x;
                lemma_member_below(m@, m@.len() as int, j);
            }
        },
        Json::Array(l) => {
            if let Some(i) = index_token(token) {
                if i < l@.len() {
                    lemma_item_below(l@, l@.len() as int, i as int);
                }
            }
        },
        _ => {},
    }
}

proof fn lemma_walk_below(target: Json, rest: Seq<char>)
    ensures
        walk(target, rest) matches Some(x) ==> height(x) <= height(target),
    decreases rest.len(),
{
    let k = first_slash(rest);
    lemma_step_below(target, unescape_token(rest.take(k)));
    match step(target, unescape_token(rest.take(k))) {
        Some(next) => {
            if 0 <= k < rest.len() {
                lemma_walk_below(next, rest.skip(k + 1));
            }
        },
        None => {},
    }
}

/// What a `$ref` resolves to lies within the document: it is no higher.
proof fn lemma_resolve_below(root: Json, r: Seq<char>)
    ensures
        resolve(root, r) matches Some(t) ==> height(t) <= height(root),
{
    if r.len() > 1 && r[0] == '#' {
        let p = replaced(replaced(replaced(r.drop_first(), "%25"@, "%"@), "%7B"@, "{"@), "%7D"@, "}"@);
        if p.len() > 0 && p[0] == '/' {
            lemma_walk_below(root, p.drop_first());
        }
    }
}

proof fn lemma_settled_halts(root: Json, schema: Json, inst: Json, path: Seq<char>, k: nat)
    requires
        refs_settle(root, schema, k),
    ensures
        halts(root, schema, inst, path, height(schema) + 1 + ref_budget(root, k)),
    decreases k, height(schema), 5nat, 0int,
{
    if let Json::Object(kw) = schema {
        let m = kw@;
        assert(height(schema) == height_of_members(m));
        lemma_ref_halts_when_settled(root, schema, inst, path, k);
        lemma_object_members_settled(root, schema, inst, path, k);
        lemma_items_halt_when_settled(root, schema, inst, path, k);
        lemma_composition_halts_when_settled(root, schema, inst, path, k);
    }
}

proof fn lemma_ref_halts_when_settled(root: Json, schema: Json, inst: Json, path: Seq<char>, k: nat)
    requires
        refs_settle(root, schema, k),
        schema is Object,
    ensures
        ref_halts(root, schema->Object_0@, inst, path, height(schema) + ref_budget(root, k)),
    decreases k, height(schema), 4nat, 0int,
{
    let m = schema->Object_0@;
    if let Some(r) = ref_target(m) {
        if let Some(t) = resolve(root, r) {
            let j = (k - 1) as nat;
            lemma_resolve_below(root, r);
            lemma_settled_halts(root, t, inst, path, j);
            lemma_budget_step(root, k);
            lemma_finishes_with_more(
                root,
                t,
                inst,
                path,
                height(t) + 1 + ref_budget(root, j),
                height(schema) + ref_budget(root, k),
            );
        }
    }
}

/// `sub` is settled and lower than `schema`: it finishes within as many
/// nested evaluations as `schema` is high, and the budget of its `$ref`s.
proof fn lemma_lower_settled(root: Json, schema: Json, sub: Json, inst: Json, path: Seq<char>, k: nat)
    requires
        refs_settle(root, sub, k),
        height(sub) < height(schema),
    ensures
        halts(root, sub, inst, path, height(schema) + ref_budget(root, k)),
    decreases k, height(schema), 1nat, 0int,
{
    lemma_settled_halts(root, sub, inst, path, k);
    lemma_finishes_with_more(
        root,
        sub,
        inst,
        path,
        height(sub) + 1 + ref_budget(root, k),
        height(schema) + ref_budget(root, k),
    );
}

proof fn lemma_member_halts_when_settled(
    root: Json,
    schema: Json,
    name: Seq<char>,
    value: Json,
    path: Seq<char>,
    k: nat,
)
    requires
        refs_settle(root, schema, k),
        schema is Object,
    ensures
        member_halts(root, schema->Object_0@, name, value, path, height(schema) + ref_budget(root, k)),
    decreases k, height(schema), 2nat, 0int,
{
    let kw = schema->Object_0@;
    let at = child(path, name);
    lemma_keyword_settled(root, kw, k, "properties"@);
    lemma_keyword_settled(root, kw, k, "additionalProperties"@);
    match lookup(kw, "properties"@) {
        Some(Json::Object(p)) => {
            let props = Json::Object(p);
            lemma_keyword_below(p@, name);
            match lookup(p@, name) {
                Some(sub) => {
                    lemma_keyword_settled(root, p@, k, name);
                    assert(height(sub) < height(props));
                    lemma_lower_settled(root, props, sub, value, at, k);
                    lemma_finishes_with_more(
                        root,
                        sub,
                        value,
                        at,
                        height(props) + ref_budget(root, k),
                        height(schema) + ref_budget(root, k),
                    );
                },
                None => {},
            }
        },
        _ => {},
    }
    match declared(properties_of(kw), name) {
        Some(_) => {},
        None => match lookup(kw, "additionalProperties"@) {
            Some(a) => {
                if a is Object {
                    lemma_lower_settled(root, schema, a, value, at, k);
                }
            },
            None => {},
        },
    }
}

proof fn lemma_members_halt_when_settled(
    root: Json,
    schema: Json,
    members: Seq<(String, Json)>,
    path: Seq<char>,
    k: nat,
    n: int,
)
    requires
        refs_settle(root, schema, k),
        schema is Object,
    ensures
        members_halt(root, schema->Object_0@, members, path, height(schema) + ref_budget(root, k), n),
    decreases k, height(schema), 3nat, n,
{
    if n > 0 && n <= members.len() {
        lemma_members_halt_when_settled(root, schema, members, path, k, n - 1);
        lemma_member_halts_when_settled(root, schema, members[n - 1].0@, members[n - 1].1, path, k);
    }
}

proof fn lemma_object_members_settled(root: Json, schema: Json, inst: Json, path: Seq<char>, k: nat)
    requires
        refs_settle(root, schema, k),
        schema is Object,
    ensures
        object_halts(root, schema->Object_0@, inst, path, height(schema) + ref_budget(root, k)),
    decreases k, height(schema), 4nat, 0int,
{
    if let Json::Object(m) = inst {
        lemma_members_halt_when_settled(root, schema, m@, path, k, m@.len() as int);
    }
}

proof fn lemma_items_halt_when_settled(root: Json, schema: Json, inst: Json, path: Seq<char>, k: nat)
    requires
        refs_settle(root, schema, k),
        schema is Object,
    ensures
        array_halts(root, schema->Object_0@, inst, path, height(schema) + ref_budget(root, k)),
    decreases k, height(schema), 4nat, 0int,
{
    let kw = schema->Object_0@;
    lemma_keyword_settled(root, kw, k, "items"@);
    if let Json::Array(items) = inst {
        if let Some(sub) = lookup(kw, "items"@) {
            lemma_items_each_settled(root, schema, sub, items@, path, k, items@.len() as int);
        }
    }
}

proof fn lemma_items_each_settled(
    root: Json,
    schema: Json,
    sub: Json,
    items: Seq<Json>,
    path: Seq<char>,
    k: nat,
    n: int,
)
    requires
        refs_settle(root, sub, k),
        height(sub) + 1 <= height(schema),
    ensures
        items_halt(root, sub, items, path, height(schema) + ref_budget(root, k), n),
    decreases k, height(schema), 3nat, n,
{
    if n > 0 && n <= items.len() {
        lemma_items_each_settled(root, schema, sub, items, path, k, n - 1);
        let at = child(path, decimal((n - 1) as nat));
        lemma_lower_settled(root, schema, sub, items[n - 1], at, k);
    }
}

proof fn lemma_all_halt_when_settled(
    root: Json,
    schema: Json,
    key: Seq<char>,
    inst: Json,
    path: Seq<char>,
    k: nat,
    n: int,
)
    requires
        refs_settle(root, schema, k),
        schema is Object,
    ensures
        all_halt(root, branches(schema->Object_0@, key), inst, path, height(schema) + ref_budget(root, k), n),
    decreases k, height(schema), 3nat, n,
{
    let kw = schema->Object_0@;
    let bs = branches(kw, key);
    if n > 0 && n <= bs.len() {
        lemma_all_halt_when_settled(root, schema, key, inst, path, k, n - 1);
        lemma_branches_settled(root, kw, k, key, n - 1);
        lemma_lower_settled(root, schema, bs[n - 1], inst, path, k);
    }
}

proof fn lemma_any_halts_when_settled(root: Json, schema: Json, inst: Json, path: Seq<char>, k: nat, i: int)
    requires
        refs_settle(root, schema, k),
        schema is Object,
    ensures
        any_halts(root, branches(schema->Object_0@, "anyOf"@), inst, path, height(schema) + ref_budget(root, k), i),
    decreases k, height(schema), 3nat, branches(schema->Object_0@, "anyOf"@).len() - i,
{
    let kw = schema->Object_0@;
    let bs = branches(kw, "anyOf"@);
    if 0 <= i < bs.len() {
        lemma_branches_settled(root, kw, k, "anyOf"@, i);
        lemma_lower_settled(root, schema, bs[i], inst, path, k);
        lemma_any_halts_when_settled(root, schema, inst, path, k, i + 1);
    }
}

proof fn lemma_composition_halts_when_settled(root: Json, schema: Json, inst: Json, path: Seq<char>, k: nat)
    requires
        refs_settle(root, schema, k),
        schema is Object,
    ensures
        composition_halts(root, schema->Object_0@, inst, path, height(schema) + ref_budget(root, k)),
    decreases k, height(schema), 4nat, 0int,
{
    let kw = schema->Object_0@;
    lemma_all_halt_when_settled(root, schema, "allOf"@, inst, path, k, branches(kw, "allOf"@).len() as int);
    lemma_any_halts_when_settled(root, schema, inst, path, k, 0);
    lemma_all_halt_when_settled(root, schema, "oneOf"@, inst, path, k, branches(kw, "oneOf"@).len() as int);
    lemma_keyword_settled(root, kw, k, "not"@);
    if let Some(x) = lookup(kw, "not"@) {
        lemma_lower_settled(root, schema, x, inst, path, k);
    }
}

/// A schema whose `$ref`s form no cycle finishes on every instance: when
/// following them from it chains at most `k` deep, its evaluation needs no
/// more than its own height, and `k` times the document's, nested steps.
pub proof fn law_acyclic_refs_finish(root: Json, schema: Json, inst: Json, path: Seq<char>, k: nat)
    requires
        refs_settle(root, schema, k),
    ensures
        halts(root, schema, inst, path, height(schema) + 1 + ref_budget(root, k)),
        terminates(root, schema, inst, path),
{
    lemma_settled_halts(root, schema, inst, path, k);
}

proof fn lemma_free_settled(root: Json, j: Json)
    requires
        ref_free(j),
    ensures
        refs_settle(root, j, 0),
    decreases j, 0int,
{
    match j {
        Json::Array(v) => lemma_items_free_settled(root, v@, v@.len() as int),
        Json::Object(m) => {
            assert(lookup(m@, "$ref"@) is None);
            lemma_members_free_settled(root, m@, m@.len() as int);
        },
        _ => {},
    }
}

proof fn lemma_items_free_settled(root: Json, v: Seq<Json>, n: int)
    requires
        items_ref_free(v, n),
    ensures
        items_settle(root, v, 0, n),
    decreases v, n,
{
    if n > 0 && n <= v.len() {
        lemma_items_free_settled(root, v, n - 1);
        lemma_free_settled(root, v[n - 1]);
    }
}

proof fn lemma_members_free_settled(root: Json, m: Seq<(String, Json)>, n: int)
    requires
        members_ref_free(m, n),
    ensures
        members_settle(root, m, 0, n),
    decreases m, n,
{
    if n > 0 && n <= m.len() {
        lemma_members_free_settled(root, m, n - 1);
        lemma_free_settled(root, m[n - 1].1);
    }
}

/// A schema in which no object has a member named `$ref` finishes on every
/// instance: its evaluation only descends into the schema.
pub proof fn law_schemas_without_refs_finish(root: Json, schema: Json, inst: Json, path: Seq<char>)
    requires
        ref_free(schema),
    ensures
        terminates(root, schema, inst, path),
{
    lemma_free_settled(root, schema);
    law_acyclic_refs_finish(root, schema, inst, path, 0);
}

/// The links from `j` that keep the instance location (`$ref`, `allOf`,
/// `anyOf`, `oneOf` and `not`) chain at most `k` deep.
pub open spec fn chains(root: Json, j: Json, k: nat) -> bool
    decreases k, 2nat, 0int,
{
    match j {
        Json::Object(m) => links_chain(root, m@, k),
        _ => true,
    }
}

/// The links of a schema object's members chain at most `k` deep.
pub open spec fn links_chain(root: Json, m: Seq<(String, Json)>, k: nat) -> bool
    decreases k, 1nat, 0int,
{
    let all = branches(m, "allOf"@);
    let any = branches(m, "anyOf"@);
    let one = branches(m, "oneOf"@);
    &&& match ref_target(m) {
        Some(r) => match resolve(root, r) {
            Some(t) => k > 0 && chains(root, t, (k - 1) as nat),
            None => true,
        },
        None => true,
    }
    &&& branches_chain(root, all, k, all.len() as int)
    &&& branches_chain(root, any, k, any.len() as int)
    &&& branches_chain(root, one, k, one.len() as int)
    &&& match lookup(m, "not"@) {
        Some(x) => k > 0 && chains(root, x, (k - 1) as nat),
        None => true,
    }
}

/// From each of the first `n` branches, links chain at most `k - 1` deep.
pub open spec fn branches_chain(root: Json, bs: Seq<Json>, k: nat, n: int) -> bool
    decreases k, 0nat, n,
{
    n <= 0 || n > bs.len() || (branches_chain(root, bs, k, n - 1) && k > 0 && chains(
        root,
        bs[n - 1],
        (k - 1) as nat,
    ))
}

/// From every object within `j`, at any depth, the links that keep the
/// instance location chain at most `k` deep.
pub open spec fn all_chain(root: Json, j: Json, k: nat) -> bool
    decreases j, 0int,
{
    match j {
        Json::Array(v) => items_chain(root, v@, k, v@.len() as int),
        Json::Object(m) => chains(root, j, k) && members_chain(root, m@, k, m@.len() as int),
        _ => true,
    }
}

/// `all_chain` holds of each of the first `n` elements.
pub open spec fn items_chain(root: Json, v: Seq<Json>, k: nat, n: int) -> bool
    decreases v, n,
{
    n <= 0 || n > v.len() || (items_chain(root, v, k, n - 1) && all_chain(root, v[n - 1], k))
}

/// `all_chain` holds of the values of the first `n` members.
pub open spec fn members_chain(root: Json, m: Seq<(String, Json)>, k: nat, n: int) -> bool
    decreases m, n,
{
    n <= 0 || n > m.len() || (members_chain(root, m, k, n - 1) && all_chain(root, m[n - 1].1, k))
}

proof fn lemma_item_chain(root: Json, v: Seq<Json>, k: nat, n: int, j: int)
    requires
        0 <= j < n <= v.len(),
        items_chain(root, v, k, n),
    ensures
        all_chain(root, v[j], k),
    decreases n,
{
    if j < n - 1 {
        lemma_item_chain(root, v, k, n - 1, j);
    }
}

proof fn lemma_member_chain(root: Json, m: Seq<(String, Json)>, k: nat, n: int, j: int)
    requires
        0 <= j < n <= m.len(),
        members_chain(root, m, k, n),
    ensures
        all_chain(root, m[j].1, k),
    decreases n,
{
    if j < n - 1 {
        lemma_member_chain(root, m, k, n - 1, j);
    }
}

proof fn lemma_keyword_chain(root: Json, kw: Seq<(String, Json)>, k: nat, key: Seq<char>)
    requires
        members_chain(root, kw, k, kw.len() as int),
    ensures
        lookup(kw, key) matches Some(v) ==> all_chain(root, v, k),
{
    lemma_lookup_index(kw, key);
    if let Some(v) = lookup(kw, key) {
        let j = choose|j: int| 0 <= j < kw.len() && kw[j].1 == v;
        lemma_member_chain(root, kw, k, kw.len() as int, j);
    }
}

proof fn lemma_branch_chain(root: Json, kw: Seq<(String, Json)>, k: nat, key: Seq<char>, i: int)
    requires
        members_chain(root, kw, k, kw.len() as int),
        0 <= i < branches(kw, key).len(),
    ensures
        all_chain(root, branches(kw, key)[i], k),
{
    lemma_keyword_chain(root, kw, k, key);
    match lookup(kw, key) {
        Some(Json::Array(b)) => lemma_item_chain(root, b@, k, b@.len() as int, i),
        _ => {},
    }
}

proof fn lemma_branches_chain_at(root: Json, bs: Seq<Json>, k: nat, n: int, i: int)
    requires
        0 <= i < n <= bs.len(),
        branches_chain(root, bs, k, n),
    ensures
        k > 0 && chains(root, bs[i], (k - 1) as nat),
    decreases n,
{
    if i < n - 1 {
        lemma_branches_chain_at(root, bs, k, n - 1, i);
    }
}

proof fn lemma_step_chain(root: Json, target: Json, token: Seq<char>, k: nat)
    requires
        all_chain(root, target, k),
    ensures
        step(target, token) matches Some(x) ==> all_chain(root, x, k),
{
    match target {
        Json::Object(m) => lemma_keyword_chain(root, m@, k, token),
        Json::Array(l) => {
            if let Some(i) = index_token(token) {
                if i < l@.len() {
                    lemma_item_chain(root, l@, k, l@.len() as int, i as int);
                }
            }
        },
        _ => {},
    }
}

proof fn lemma_walk_chain(root: Json, target: Json, rest: Seq<char>, k: nat)
    requires
        all_chain(root, target, k),
    ensures
        walk(target, rest) matches Some(x) ==> all_chain(root, x, k),
    decreases rest.len(),
{
    let n = first_slash(rest);
    lemma_step_chain(root, target, unescape_token(rest.take(n)), k);
    match step(target, unescape_token(rest.take(n))) {
        Some(next) => {
            if 0 <= n < rest.len() {
                lemma_walk_chain(root, next, rest.skip(n + 1), k);
            }
        },
        None => {},
    }
}

proof fn lemma_resolve_chain(root: Json, r: Seq<char>, k: nat)
    requires
        all_chain(root, root, k),
    ensures
        resolve(root, r) matches Some(t) ==> all_chain(root, t, k),
{
    if r.len() > 1 && r[0] == '#' {
        let p = replaced(replaced(replaced(r.drop_first(), "%25"@, "%"@), "%7B"@, "{"@), "%7D"@, "}"@);
        if p.len() > 0 && p[0] == '/' {
            lemma_walk_chain(root, root, p.drop_first(), k);
        }
    }
}

/// The nested evaluations an instance of height `h` can take when links that
/// keep its location chain at most `top` deep.
pub open spec fn descent_budget(top: nat, h: nat) -> nat {
    (top + 1) * h
}

proof fn lemma_descent_fits(top: nat, a: nat, h: nat, k: nat)
    requires
        a < h,
    ensures
        top + 1 + descent_budget(top, a) <= k + descent_budget(top, h),
{
    assert((top + 1) + (top + 1) * a <= (top + 1) * h) by (nonlinear_arith)
        requires
            a < h,
    ;
}

proof fn lemma_chain_halts(root: Json, top: nat, j: Json, inst: Json, path: Seq<char>, k: nat)
    requires
        all_chain(root, root, top),
        all_chain(root, j, top),
        chains(root, j, k),
    ensures
        halts(root, j, inst, path, k + 1 + descent_budget(top, height(inst))),
    decreases height(inst), k, 5nat, 0int,
{
    if let Json::Object(kw) = j {
        let m = kw@;
        let f = k + descent_budget(top, height(inst));
        lemma_ref_halts_when_chained(root, top, j, inst, path, k);
        lemma_object_halts_when_chained(root, top, j, inst, path, k);
        lemma_array_halts_when_chained(root, top, j, inst, path, k);
        lemma_composition_halts_when_chained(root, top, j, inst, path, k);
        assert(keywords_halt(root, m, inst, path, f));
    }
}

/// A schema reached along a link that keeps the location finishes within the
/// nested evaluations left.
proof fn lemma_linked_halts(root: Json, top: nat, c: Json, inst: Json, path: Seq<char>, k: nat)
    requires
        all_chain(root, root, top),
        all_chain(root, c, top),
        k > 0,
        chains(root, c, (k - 1) as nat),
    ensures
        halts(root, c, inst, path, k + descent_budget(top, height(inst))),
    decreases height(inst), k, 1nat, 0int,
{
    lemma_chain_halts(root, top, c, inst, path, (k - 1) as nat);
}

/// A schema applied to a lower instance finishes within the nested
/// evaluations left.
proof fn lemma_descended_halts(
    root: Json,
    top: nat,
    sub: Json,
    inst: Json,
    value: Json,
    path: Seq<char>,
    k: nat,
)
    requires
        all_chain(root, root, top),
        all_chain(root, sub, top),
        height(value) < height(inst),
    ensures
        halts(root, sub, value, path, k + descent_budget(top, height(inst))),
    decreases height(inst), k, 1nat, 0int,
{
    assert(chains(root, sub, top));
    lemma_chain_halts(root, top, sub, value, path, top);
    lemma_descent_fits(top, height(value), height(inst), k);
    lemma_finishes_with_more(
        root,
        sub,
        value,
        path,
        top + 1 + descent_budget(top, height(value)),
        k + descent_budget(top, height(inst)),
    );
}

proof fn lemma_ref_halts_when_chained(root: Json, top: nat, j: Json, inst: Json, path: Seq<char>, k: nat)
    requires
        all_chain(root, root, top),
        all_chain(root, j, top),
        chains(root, j, k),
        j is Object,
    ensures
        ref_halts(root, j->Object_0@, inst, path, k + descent_budget(top, height(inst))),
    decreases height(inst), k, 4nat, 0int,
{
    let m = j->Object_0@;
    if let Some(r) = ref_target(m) {
        if let Some(t) = resolve(root, r) {
            lemma_resolve_chain(root, r, top);
            lemma_linked_halts(root, top, t, inst, path, k);
        }
    }
}

proof fn lemma_member_halts_when_chained(
    root: Json,
    top: nat,
    j: Json,
    inst: Json,
    name: Seq<char>,
    value: Json,
    path: Seq<char>,
    k: nat,
)
    requires
        all_chain(root, root, top),
        all_chain(root, j, top),
        j is Object,
        height(value) < height(inst),
    ensures
        member_halts(root, j->Object_0@, name, value, path, k + descent_budget(top, height(inst))),
    decreases height(inst), k, 2nat, 0int,
{
    let kw = j->Object_0@;
    let at = child(path, name);
    lemma_keyword_chain(root, kw, top, "properties"@);
    lemma_keyword_chain(root, kw, top, "additionalProperties"@);
    match lookup(kw, "properties"@) {
        Some(Json::Object(p)) => {
            lemma_keyword_chain(root, p@, top, name);
            if let Some(sub) = lookup(p@, name) {
                lemma_descended_halts(root, top, sub, inst, value, at, k);
            }
        },
        _ => {},
    }
    match declared(properties_of(kw), name) {
        Some(_) => {},
        None => match lookup(kw, "additionalProperties"@) {
            Some(a) => {
                if a is Object {
                    lemma_descended_halts(root, top, a, inst, value, at, k);
                }
            },
            None => {},
        },
    }
}

proof fn lemma_members_halt_when_chained(
    root: Json,
    top: nat,
    j: Json,
    inst: Json,
    members: Seq<(String, Json)>,
    path: Seq<char>,
    k: nat,
    n: int,
)
    requires
        all_chain(root, root, top),
        all_chain(root, j, top),
        j is Object,
        inst == Json::Object(inst->Object_0) && inst->Object_0@ == members,
    ensures
        members_halt(root, j->Object_0@, members, path, k + descent_budget(top, height(inst)), n),
    decreases height(inst), k, 3nat, n,
{
    if n > 0 && n <= members.len() {
        lemma_members_halt_when_chained(root, top, j, inst, members, path, k, n - 1);
        lemma_member_below(members, members.len() as int, n - 1);
        lemma_member_halts_when_chained(root, top, j, inst, members[n - 1].0@, members[n - 1].1, path, k);
    }
}

proof fn lemma_object_halts_when_chained(root: Json, top: nat, j: Json, inst: Json, path: Seq<char>, k: nat)
    requires
        all_chain(root, root, top),
        all_chain(root, j, top),
        j is Object,
    ensures
        object_halts(root, j->Object_0@, inst, path, k + descent_budget(top, height(inst))),
    decreases height(inst), k, 4nat, 0int,
{
    if let Json::Object(m) = inst {
        lemma_members_halt_when_chained(root, top, j, inst, m@, path, k, m@.len() as int);
    }
}

proof fn lemma_items_halt_when_chained(
    root: Json,
    top: nat,
    sub: Json,
    inst: Json,
    items: Seq<Json>,
    path: Seq<char>,
    k: nat,
    n: int,
)
    requires
        all_chain(root, root, top),
        all_chain(root, sub, top),
        inst == Json::Array(inst->Array_0) && inst->Array_0@ == items,
    ensures
        items_halt(root, sub, items, path, k + descent_budget(top, height(inst)), n),
    decreases height(inst), k, 3nat, n,
{
    if n > 0 && n <= items.len() {
        lemma_items_halt_when_chained(root, top, sub, inst, items, path, k, n - 1);
        lemma_item_below(items, items.len() as int, n - 1);
        lemma_descended_halts(root, top, sub, inst, items[n - 1], child(path, decimal((n - 1) as nat)), k);
    }
}

proof fn lemma_array_halts_when_chained(root: Json, top: nat, j: Json, inst: Json, path: Seq<char>, k: nat)
    requires
        all_chain(root, root, top),
        all_chain(root, j, top),
        j is Object,
    ensures
        array_halts(root, j->Object_0@, inst, path, k + descent_budget(top, height(inst))),
    decreases height(inst), k, 4nat, 0int,
{
    let kw = j->Object_0@;
    lemma_keyword_chain(root, kw, top, "items"@);
    if let Json::Array(items) = inst {
        if let Some(sub) = lookup(kw, "items"@) {
            lemma_items_halt_when_chained(root, top, sub, inst, items@, path, k, items@.len() as int);
        }
    }
}

proof fn lemma_all_halt_when_chained(
    root: Json,
    top: nat,
    j: Json,
    key: Seq<char>,
    inst: Json,
    path: Seq<char>,
    k: nat,
    n: int,
)
    requires
        all_chain(root, root, top),
        all_chain(root, j, top),
        chains(root, j, k),
        j is Object,
        key == "allOf"@ || key == "anyOf"@ || key == "oneOf"@,
    ensures
        all_halt(root, branches(j->Object_0@, key), inst, path, k + descent_budget(top, height(inst)), n),
    decreases height(inst), k, 3nat, n,
{
    let kw = j->Object_0@;
    let bs = branches(kw, key);
    if n > 0 && n <= bs.len() {
        lemma_all_halt_when_chained(root, top, j, key, inst, path, k, n - 1);
        lemma_branch_chain(root, kw, top, key, n - 1);
        lemma_branches_chain_at(root, bs, k, bs.len() as int, n - 1);
        lemma_linked_halts(root, top, bs[n - 1], inst, path, k);
    }
}

proof fn lemma_any_halts_from(root: Json, bs: Seq<Json>, inst: Json, path: Seq<char>, f: nat, i: int)
    requires
        all_halt(root, bs, inst, path, f, bs.len() as int),
    ensures
        any_halts(root, bs, inst, path, f, i),
    decreases bs.len() - i,
{
    if 0 <= i < bs.len() {
        lemma_all_halt_at_index(root, bs, inst, path, f, bs.len() as int, i);
        lemma_any_halts_from(root, bs, inst, path, f, i + 1);
    }
}

proof fn lemma_all_halt_at_index(root: Json, bs: Seq<Json>, inst: Json, path: Seq<char>, f: nat, n: int, i: int)
    requires
        0 <= i < n <= bs.len(),
        all_halt(root, bs, inst, path, f, n),
    ensures
        halts(root, bs[i], inst, path, f),
    decreases n,
{
    if i < n - 1 {
        lemma_all_halt_at_index(root, bs, inst, path, f, n - 1, i);
    }
}

proof fn lemma_composition_halts_when_chained(root: Json, top: nat, j: Json, inst: Json, path: Seq<char>, k: nat)
    requires
        all_chain(root, root, top),
        all_chain(root, j, top),
        chains(root, j, k),
        j is Object,
    ensures
        composition_halts(root, j->Object_0@, inst, path, k + descent_budget(top, height(inst))),
    decreases height(inst), k, 4nat, 0int,
{
    let kw = j->Object_0@;
    let f = k + descent_budget(top, height(inst));
    lemma_all_halt_when_chained(root, top, j, "allOf"@, inst, path, k, branches(kw, "allOf"@).len() as int);
    lemma_all_halt_when_chained(root, top, j, "anyOf"@, inst, path, k, branches(kw, "anyOf"@).len() as int);
    lemma_any_halts_from(root, branches(kw, "anyOf"@), inst, path, f, 0);
    lemma_all_halt_when_chained(root, top, j, "oneOf"@, inst, path, k, branches(kw, "oneOf"@).len() as int);
    lemma_keyword_chain(root, kw, top, "not"@);
    if let Some(x) = lookup(kw, "not"@) {
        lemma_linked_halts(root, top, x, inst, path, k);
    }
}

/// Recursion through `properties`, `additionalProperties` and `items` is
/// bounded by the instance: when, from every object of the document and of
/// the schema, the links that keep the instance location (`$ref`, `allOf`,
/// `anyOf`, `oneOf`, `not`) chain at most `k` deep, so that none of them
/// forms a cycle, the schema finishes on every instance, within
/// `k + 1 + (k + 1) * height(inst)` nested evaluations.
pub proof fn law_recursion_bounded_by_instance(root: Json, schema: Json, inst: Json, path: Seq<char>, k: nat)
    requires
        all_chain(root, root, k),
        all_chain(root, schema, k),
    ensures
        halts(root, schema, inst, path, k + 1 + descent_budget(k, height(inst))),
        terminates(root, schema, inst, path),
{
    assert(chains(root, schema, k));
    lemma_chain_halts(root, k, schema, inst, path, k);
}

} // verus!
