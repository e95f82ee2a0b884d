//! The JSON Schema vocabulary this contract evaluates.
//!
//! Core: boolean schemas, `$ref` to a location inside the same document
//! (`#/$defs/...`, `#/definitions/...`, or any JSON pointer), `allOf`, `anyOf`,
//! `oneOf`, `not`. Validation: `type`, `enum`, `const`, `properties`,
//! `required`, `additionalProperties`, `items`, `minItems`, `maxItems`,
//! `minLength`, `maxLength`, `minimum`, `maximum`, `exclusiveMinimum`,
//! `exclusiveMaximum`. Every other keyword is ignored, as the specification
//! requires of an unknown one.
//!
//! An issue's `code` is the keyword that failed and its `path` the JSON pointer
//! of the instance location, so an operator reads `/lines/0/qty: minimum`.
//!
//! Evaluation follows `$ref` wherever it leads, so a schema whose references
//! lead back to where they started without the instance getting smaller never
//! finishes: `halts` says when an evaluation finishes within a number of nested
//! steps, and `evaluate` what it reports then.
use vstd::prelude::*;

use vstd::string::*;

use crate::contract::{findings, push_issue, push_issues, Finding, ValidationIssue};
use crate::json::{
    as_order, as_u64, get, is_integer, json_equal, kind_name, kind_name_of, lookup, has_key, push_rendered, render,
    same_value, Json, NumberKind,
};
use crate::laws::law_check_is_any_finishing_evaluation;
use crate::pointer::{pointer, resolve_pointer};
use crate::text::{chars_of, decimal, push_decimal, replace_text, replaced, same_text, string_of_range};

verus! {

/// Where an issue is reported: the instance location, `/` for the root.
pub open spec fn issue_path(path: Seq<char>) -> Seq<char> {
    if path.len() == 0 {
        "/"@
    } else {
        path
    }
}

/// An issue with `code` and `message` at the instance location `path`.
pub open spec fn finding(code: Seq<char>, message: Seq<char>, path: Seq<char>) -> Finding {
    Finding { code, message, path: Some(issue_path(path)) }
}

/// A name as a JSON Pointer reference token: `~` as `~0`, then `/` as `~1`.
pub open spec fn escape_name(name: Seq<char>) -> Seq<char> {
    replaced(replaced(name, "~"@, "~0"@), "/"@, "~1"@)
}

/// The location of member or element `name` below `path`.
pub open spec fn child(path: Seq<char>, name: Seq<char>) -> Seq<char> {
    path + "/"@ + escape_name(name)
}

/// The value a `$ref` names in `root`: a fragment `#` followed by a JSON
/// pointer in which `%25`, `%7B` and `%7D` stand for `%`, `{` and `}`.
pub open spec fn resolve(root: Json, reference: Seq<char>) -> Option<Json> {
    if reference.len() == 0 || reference[0] != '#' {
        None
    } else if reference.len() == 1 {
        Some(root)
    } else {
        pointer(
            root,
            replaced(
                replaced(replaced(reference.drop_first(), "%25"@, "%"@), "%7B"@, "{"@),
                "%7D"@,
                "}"@,
            ),
        )
    }
}

/// The reference of a `$ref` keyword that is a string.
pub open spec fn ref_target(kw: Seq<(String, Json)>) -> Option<Seq<char>> {
    match lookup(kw, "$ref"@) {
        Some(Json::Text(s)) => Some(s@),
        _ => None,
    }
}

/// A keyword whose value is a number stored as a non-negative integer.
pub open spec fn u64_keyword(kw: Seq<(String, Json)>, name: Seq<char>) -> Option<u64> {
    match lookup(kw, name) {
        Some(v) => as_u64(v),
        None => None,
    }
}

/// The place in the floating-point order of a keyword whose value is a number.
pub open spec fn order_keyword(kw: Seq<(String, Json)>, name: Seq<char>) -> Option<i64> {
    match lookup(kw, name) {
        Some(v) => as_order(v),
        None => None,
    }
}

/// The elements of a keyword whose value is an array, none otherwise.
pub open spec fn branches(kw: Seq<(String, Json)>, name: Seq<char>) -> Seq<Json> {
    match lookup(kw, name) {
        Some(Json::Array(b)) => b@,
        _ => seq![],
    }
}

/// The members of the `properties` keyword, when it is an object.
pub open spec fn properties_of(kw: Seq<(String, Json)>) -> Option<Seq<(String, Json)>> {
    match lookup(kw, "properties"@) {
        Some(Json::Object(p)) => Some(p@),
        _ => None,
    }
}

/// The schema `properties` declares for `name`.
pub open spec fn declared(props: Option<Seq<(String, Json)>>, name: Seq<char>) -> Option<Json> {
    match props {
        Some(p) => lookup(p, name),
        None => None,
    }
}

/// The strings among `v`, in order.
pub open spec fn texts_of(v: Seq<Json>) -> Seq<Seq<char>>
    decreases v.len(),
{
    if v.len() == 0 {
        seq![]
    } else {
        let rest = texts_of(v.drop_last());
        match v.last() {
            Json::Text(s) => rest.push(s@),
            _ => rest,
        }
    }
}

/// The type names a `type` keyword allows: one string, or the strings of an array.
pub open spec fn allowed_types(wanted: Json) -> Option<Seq<Seq<char>>> {
    match wanted {
        Json::Text(s) => Some(seq![s@]),
        Json::Array(v) => Some(texts_of(v@)),
        _ => None,
    }
}

/// Whether `inst` has the type `name`: `integer` and `number` as JSON Schema
/// defines them, any other name by the value's own type name.
pub open spec fn has_type(inst: Json, name: Seq<char>) -> bool {
    if name == "integer"@ {
        is_integer(inst)
    } else if name == "number"@ {
        inst is Number
    } else {
        kind_name(inst) == name
    }
}

/// `names` joined with `sep` between them.
pub open spec fn joined(names: Seq<Seq<char>>, sep: Seq<char>) -> Seq<char>
    decreases names.len(),
{
    if names.len() == 0 {
        seq![]
    } else if names.len() == 1 {
        names[0]
    } else {
        joined(names.drop_last(), sep) + sep + names.last()
    }
}

/// The `type` keyword.
pub open spec fn type_findings(kw: Seq<(String, Json)>, inst: Json, path: Seq<char>) -> Seq<Finding> {
    match lookup(kw, "type"@) {
        Some(w) => match allowed_types(w) {
            Some(a) => if exists|i: int| 0 <= i < a.len() && #[trigger] has_type(inst, a[i]) {
                seq![]
            } else {
                seq![finding("type"@, "is "@ + kind_name(inst) + ", expected "@ + joined(a, " or "@), path)]
            },
            None => seq![],
        },
        None => seq![],
    }
}

/// Whether `x` equals some element of `v`.
pub open spec fn contains_value(v: Seq<Json>, x: Json) -> bool {
    exists|i: int| 0 <= i < v.len() && #[trigger] same_value(v[i], x)
}

/// The `enum` and `const` keywords.
pub open spec fn value_findings(kw: Seq<(String, Json)>, inst: Json, path: Seq<char>) -> Seq<Finding> {
    (match lookup(kw, "enum"@) {
        Some(Json::Array(a)) => if contains_value(a@, inst) {
            seq![]
        } else {
            seq![finding("enum"@, "is not one of the allowed values"@, path)]
        },
        _ => seq![],
    }) + (match lookup(kw, "const"@) {
        Some(e) => if same_value(e, inst) {
            seq![]
        } else {
            seq![finding("const"@, "must be "@ + render(e), path)]
        },
        None => seq![],
    })
}

/// The `required` names among the first `n` entries of `reqs` that `members` lacks.
pub open spec fn required_findings(
    reqs: Seq<Json>,
    members: Seq<(String, Json)>,
    path: Seq<char>,
    n: int,
) -> Seq<Finding>
    decreases n,
{
    if n <= 0 || n > reqs.len() {
        seq![]
    } else {
        required_findings(reqs, members, path, n - 1) + match reqs[n - 1] {
            Json::Text(name) => if has_key(members, name@) {
                seq![]
            } else {
                seq![finding("required"@, "missing property "@ + name@, child(path, name@))]
            },
            _ => seq![],
        }
    }
}

/// The `required` keyword.
pub open spec fn required_part(kw: Seq<(String, Json)>, members: Seq<(String, Json)>, path: Seq<char>) -> Seq<Finding> {
    match lookup(kw, "required"@) {
        Some(Json::Array(r)) => required_findings(r@, members, path, r@.len() as int),
        _ => seq![],
    }
}

/// The `minItems`, `maxItems`, `minLength` or `maxLength` bound `name` on a size.
pub open spec fn size_findings(
    kw: Seq<(String, Json)>,
    size: nat,
    path: Seq<char>,
    lower: Seq<char>,
    upper: Seq<char>,
    before: Seq<char>,
    unit: Seq<char>,
) -> Seq<Finding> {
    (match u64_keyword(kw, lower) {
        Some(min) => if size < min {
            seq![finding(lower, before + decimal(size) + unit + ", at least "@ + decimal(min as nat) + " required"@, path)]
        } else {
            seq![]
        },
        None => seq![],
    }) + (match u64_keyword(kw, upper) {
        Some(max) => if size > max {
            seq![finding(upper, before + decimal(size) + unit + ", at most "@ + decimal(max as nat) + " allowed"@, path)]
        } else {
            seq![]
        },
        None => seq![],
    })
}

/// `minLength` and `maxLength`, counted in characters.
pub open spec fn string_findings(kw: Seq<(String, Json)>, inst: Json, path: Seq<char>) -> Seq<Finding> {
    match inst {
        Json::Text(s) => size_findings(kw, s@.len(), path, "minLength"@, "maxLength"@, "is "@, " characters"@),
        _ => seq![],
    }
}

/// One of the numeric bounds: `fails(value, bound)` says when it is broken.
pub open spec fn bound_finding(
    kw: Seq<(String, Json)>,
    name: Seq<char>,
    value: i64,
    shown: Seq<char>,
    below: bool,
    strict: bool,
    path: Seq<char>,
) -> Seq<Finding> {
    match order_keyword(kw, name) {
        Some(b) => {
            let broken = if below {
                if strict { value <= b } else { value < b }
            } else {
                if strict { value >= b } else { value > b }
            };
            if broken {
                seq![finding(name, shown + if below {
                    if strict { " is not above the minimum"@ } else { " is below the minimum"@ }
                } else {
                    if strict { " is not below the maximum"@ } else { " is above the maximum"@ }
                }, path)]
            } else {
                seq![]
            }
        },
        None => seq![],
    }
}

/// `minimum`, `maximum`, `exclusiveMinimum` and `exclusiveMaximum`.
pub open spec fn number_findings(kw: Seq<(String, Json)>, inst: Json, path: Seq<char>) -> Seq<Finding> {
    match inst {
        Json::Number(n) => bound_finding(kw, "minimum"@, n.order, n.shown@, true, false, path)
            + bound_finding(kw, "maximum"@, n.order, n.shown@, false, false, path)
            + bound_finding(kw, "exclusiveMinimum"@, n.order, n.shown@, true, true, path)
            + bound_finding(kw, "exclusiveMaximum"@, n.order, n.shown@, false, true, path),
        _ => seq![],
    }
}

/// What `schema` reports of `inst` at `path`, looking at most `fuel` nested
/// evaluations deep.
pub open spec fn evaluate(root: Json, schema: Json, inst: Json, path: Seq<char>, fuel: nat) -> Seq<Finding>
    decreases fuel, 0nat, 0int,
{
    if fuel == 0 {
        seq![]
    } else {
        match schema {
            Json::Bool(b) => if b {
                seq![]
            } else {
                seq![finding("false"@, "nothing is allowed here"@, path)]
            },
            Json::Object(kw) => keyword_findings(root, kw@, inst, path, (fuel - 1) as nat),
            _ => seq![],
        }
    }
}

/// What the keywords of a schema object report, in the order they are checked.
pub open spec fn keyword_findings(root: Json, kw: Seq<(String, Json)>, inst: Json, path: Seq<char>, f: nat) -> Seq<Finding>
    decreases f, 3nat, 0int,
{
    ref_findings(root, kw, inst, path, f) + type_findings(kw, inst, path) + value_findings(kw, inst, path)
        + object_findings(root, kw, inst, path, f) + array_findings(root, kw, inst, path, f)
        + string_findings(kw, inst, path) + number_findings(kw, inst, path)
        + composition_findings(root, kw, inst, path, f)
}

/// The `$ref` keyword.
pub open spec fn ref_findings(root: Json, kw: Seq<(String, Json)>, inst: Json, path: Seq<char>, f: nat) -> Seq<Finding>
    decreases f, 1nat, 0int,
{
    match ref_target(kw) {
        Some(r) => match resolve(root, r) {
            Some(t) => evaluate(root, t, inst, path, f),
            None => seq![finding("$ref"@, "unresolvable "@ + r, path)],
        },
        None => seq![],
    }
}

/// What is reported of one member of an object instance.
pub open spec fn member_findings(
    root: Json,
    kw: Seq<(String, Json)>,
    name: Seq<char>,
    value: Json,
    path: Seq<char>,
    f: nat,
) -> Seq<Finding>
    decreases f, 1nat, 0int,
{
    let at = child(path, name);
    match declared(properties_of(kw), name) {
        Some(sub) => evaluate(root, sub, value, at, f),
        None => match lookup(kw, "additionalProperties"@) {
            Some(Json::Bool(false)) => seq![finding("additionalProperties"@, "is not a declared property"@, at)],
            Some(a) => if a is Object {
                evaluate(root, a, value, at, f)
            } else {
                seq![]
            },
            None => seq![],
        },
    }
}

/// What is reported of the first `n` members.
pub open spec fn members_findings(
    root: Json,
    kw: Seq<(String, Json)>,
    members: Seq<(String, Json)>,
    path: Seq<char>,
    f: nat,
    n: int,
) -> Seq<Finding>
    decreases f, 1nat, n,
{
    if n <= 0 || n > members.len() {
        seq![]
    } else {
        members_findings(root, kw, members, path, f, n - 1) + member_findings(
            root,
            kw,
            members[n - 1].0@,
            members[n - 1].1,
            path,
            f,
        )
    }
}

/// `required`, `properties` and `additionalProperties`, on an object instance.
pub open spec fn object_findings(root: Json, kw: Seq<(String, Json)>, inst: Json, path: Seq<char>, f: nat) -> Seq<Finding>
    decreases f, 2nat, 0int,
{
    match inst {
        Json::Object(m) => required_part(kw, m@, path) + members_findings(root, kw, m@, path, f, m@.len() as int),
        _ => seq![],
    }
}

/// What `sub` reports of the first `n` elements.
pub open spec fn items_findings(root: Json, sub: Json, items: Seq<Json>, path: Seq<char>, f: nat, n: int) -> Seq<Finding>
    decreases f, 1nat, n,
{
    if n <= 0 || n > items.len() {
        seq![]
    } else {
        items_findings(root, sub, items, path, f, n - 1) + evaluate(
            root,
            sub,
            items[n - 1],
            child(path, decimal((n - 1) as nat)),
            f,
        )
    }
}

/// `minItems`, `maxItems` and `items`, on an array instance.
pub open spec fn array_findings(root: Json, kw: Seq<(String, Json)>, inst: Json, path: Seq<char>, f: nat) -> Seq<Finding>
    decreases f, 2nat, 0int,
{
    match inst {
        Json::Array(items) => size_findings(kw, items@.len(), path, "minItems"@, "maxItems"@, "has "@, " items"@)
            + match lookup(kw, "items"@) {
            Some(sub) => items_findings(root, sub, items@, path, f, items@.len() as int),
            None => seq![],
        },
        _ => seq![],
    }
}

/// What the first `n` of `bs` report together.
pub open spec fn all_findings(root: Json, bs: Seq<Json>, inst: Json, path: Seq<char>, f: nat, n: int) -> Seq<Finding>
    decreases f, 1nat, n,
{
    if n <= 0 || n > bs.len() {
        seq![]
    } else {
        all_findings(root, bs, inst, path, f, n - 1) + evaluate(root, bs[n - 1], inst, path, f)
    }
}

/// How many of the first `n` of `bs` report nothing.
pub open spec fn match_count(root: Json, bs: Seq<Json>, inst: Json, path: Seq<char>, f: nat, n: int) -> nat
    decreases f, 1nat, n,
{
    if n <= 0 || n > bs.len() {
        0
    } else {
        match_count(root, bs, inst, path, f, n - 1) + if evaluate(root, bs[n - 1], inst, path, f).len() == 0 {
            1nat
        } else {
            0nat
        }
    }
}

/// Whether one of `bs`, from index `i` on, reports nothing.
pub open spec fn matches_any(root: Json, bs: Seq<Json>, inst: Json, path: Seq<char>, f: nat, i: int) -> bool
    decreases f, 1nat, bs.len() - i,
{
    0 <= i < bs.len() && (evaluate(root, bs[i], inst, path, f).len() == 0 || matches_any(
        root,
        bs,
        inst,
        path,
        f,
        i + 1,
    ))
}

/// `allOf`, `anyOf`, `oneOf` and `not`.
pub open spec fn composition_findings(root: Json, kw: Seq<(String, Json)>, inst: Json, path: Seq<char>, f: nat) -> Seq<Finding>
    decreases f, 2nat, 0int,
{
    let all = branches(kw, "allOf"@);
    let any = branches(kw, "anyOf"@);
    let one = branches(kw, "oneOf"@);
    let count = match_count(root, one, inst, path, f, one.len() as int);
    all_findings(root, all, inst, path, f, all.len() as int) + (if any.len() > 0 && !matches_any(root, any, inst, path, f, 0) {
        seq![finding("anyOf"@, "matches none of the alternatives"@, path)]
    } else {
        seq![]
    }) + (if one.len() > 0 && count != 1 {
        seq![finding("oneOf"@, "matches "@ + decimal(count) + " alternatives, exactly one required"@, path)]
    } else {
        seq![]
    }) + match lookup(kw, "not"@) {
        Some(x) => if evaluate(root, x, inst, path, f).len() == 0 {
            seq![finding("not"@, "matches a schema it must not"@, path)]
        } else {
            seq![]
        },
        None => seq![],
    }
}

/// Whether evaluating `schema` on `inst` finishes within `fuel` nested
/// evaluations: every evaluation it starts finishes in one less, and `anyOf`
/// stops at its first alternative that reports nothing.
pub open spec fn halts(root: Json, schema: Json, inst: Json, path: Seq<char>, fuel: nat) -> bool
    decreases fuel, 0nat, 0int,
{
    fuel > 0 && match schema {
        Json::Object(kw) => keywords_halt(root, kw@, inst, path, (fuel - 1) as nat),
        _ => true,
    }
}

/// Whether the evaluations the keywords of a schema object start all finish.
pub open spec fn keywords_halt(root: Json, kw: Seq<(String, Json)>, inst: Json, path: Seq<char>, f: nat) -> bool
    decreases f, 3nat, 0int,
{
    &&& ref_halts(root, kw, inst, path, f)
    &&& object_halts(root, kw, inst, path, f)
    &&& array_halts(root, kw, inst, path, f)
    &&& composition_halts(root, kw, inst, path, f)
}

pub open spec fn ref_halts(root: Json, kw: Seq<(String, Json)>, inst: Json, path: Seq<char>, f: nat) -> bool
    decreases f, 1nat, 0int,
{
    match ref_target(kw) {
        Some(r) => match resolve(root, r) {
            Some(t) => halts(root, t, inst, path, f),
            None => true,
        },
        None => true,
    }
}

pub open spec fn member_halts(
    root: Json,
    kw: Seq<(String, Json)>,
    name: Seq<char>,
    value: Json,
    path: Seq<char>,
    f: nat,
) -> bool
    decreases f, 1nat, 0int,
{
    let at = child(path, name);
    match declared(properties_of(kw), name) {
        Some(sub) => halts(root, sub, value, at, f),
        None => match lookup(kw, "additionalProperties"@) {
            Some(a) => a is Object ==> halts(root, a, value, at, f),
            None => true,
        },
    }
}

pub open spec fn members_halt(
    root: Json,
    kw: Seq<(String, Json)>,
    members: Seq<(String, Json)>,
    path: Seq<char>,
    f: nat,
    n: int,
) -> bool
    decreases f, 1nat, n,
{
    n <= 0 || n > members.len() || (members_halt(root, kw, members, path, f, n - 1) && member_halts(
        root,
        kw,
        members[n - 1].0@,
        members[n - 1].1,
        path,
        f,
    ))
}

pub open spec fn object_halts(root: Json, kw: Seq<(String, Json)>, inst: Json, path: Seq<char>, f: nat) -> bool
    decreases f, 2nat, 0int,
{
    match inst {
        Json::Object(m) => members_halt(root, kw, m@, path, f, m@.len() as int),
        _ => true,
    }
}

pub open spec fn items_halt(root: Json, sub: Json, items: Seq<Json>, path: Seq<char>, f: nat, n: int) -> bool
    decreases f, 1nat, n,
{
    n <= 0 || n > items.len() || (items_halt(root, sub, items, path, f, n - 1) && halts(
        root,
        sub,
        items[n - 1],
        child(path, decimal((n - 1) as nat)),
        f,
    ))
}

pub open spec fn array_halts(root: Json, kw: Seq<(String, Json)>, inst: Json, path: Seq<char>, f: nat) -> bool
    decreases f, 2nat, 0int,
{
    match inst {
        Json::Array(items) => match lookup(kw, "items"@) {
            Some(sub) => items_halt(root, sub, items@, path, f, items@.len() as int),
            None => true,
        },
        _ => true,
    }
}

pub open spec fn all_halt(root: Json, bs: Seq<Json>, inst: Json, path: Seq<char>, f: nat, n: int) -> bool
    decreases f, 1nat, n,
{
    n <= 0 || n > bs.len() || (all_halt(root, bs, inst, path, f, n - 1) && halts(root, bs[n - 1], inst, path, f))
}

/// `anyOf` evaluates its alternatives from index `i` on until one reports nothing.
pub open spec fn any_halts(root: Json, bs: Seq<Json>, inst: Json, path: Seq<char>, f: nat, i: int) -> bool
    decreases f, 1nat, bs.len() - i,
{
    i < 0 || i >= bs.len() || (halts(root, bs[i], inst, path, f) && (evaluate(root, bs[i], inst, path, f).len() == 0
        || any_halts(root, bs, inst, path, f, i + 1)))
}

pub open spec fn composition_halts(root: Json, kw: Seq<(String, Json)>, inst: Json, path: Seq<char>, f: nat) -> bool
    decreases f, 2nat, 0int,
{
    let all = branches(kw, "allOf"@);
    let any = branches(kw, "anyOf"@);
    let one = branches(kw, "oneOf"@);
    &&& all_halt(root, all, inst, path, f, all.len() as int)
    &&& any_halts(root, any, inst, path, f, 0)
    &&& all_halt(root, one, inst, path, f, one.len() as int)
    &&& match lookup(kw, "not"@) {
        Some(x) => halts(root, x, inst, path, f),
        None => true,
    }
}

} // verus!

verus! {

/// An issue with `code` and `message` at `path`.
fn issue(code: &str, message: &str, path: &str) -> (r: ValidationIssue)
    ensures
        r@ == finding(code@, message@, path@),
{
    let at = if path.is_empty() {
        "/".to_owned()
    } else {
        path.to_owned()
    };
    ValidationIssue { code: code.to_owned(), message: message.to_owned(), path: Some(at) }
}

/// The location of member or element `name` below `path`.
pub fn child_path(path: &str, name: &str) -> (r: String)
    ensures
        r@ == child(path@, name@),
{
    proof {
        reveal_strlit("~");
        reveal_strlit("/");
    }
    let tilde = replace_text(name, "~", "~0");
    let token = replace_text(tilde.as_str(), "/", "~1");
    let mut r = path.to_owned();
    r.append("/");
    r.append(token.as_str());
    r
}

/// The value a `$ref` names in `root`.
pub fn resolve_ref<'a>(root: &'a Json, reference: &str) -> (r: Option<&'a Json>)
    ensures
        match r {
            Some(v) => resolve(*root, reference@) == Some(*v),
            None => resolve(*root, reference@) is None,
        },
{
    let cs = chars_of(reference);
    if cs.len() == 0 || cs[0] != '#' {
        return None;
    }
    if cs.len() == 1 {
        return Some(root);
    }
    proof {
        reveal_strlit("%25");
        reveal_strlit("%7B");
        reveal_strlit("%7D");
    }
    let fragment = string_of_range(&cs, 1, cs.len());
    assert(fragment@ =~= reference@.drop_first());
    let a = replace_text(fragment.as_str(), "%25", "%");
    let b = replace_text(a.as_str(), "%7B", "{");
    let c = replace_text(b.as_str(), "%7D", "}");
    resolve_pointer(root, c.as_str())
}

fn u64_of(kw: &Vec<(String, Json)>, name: &str) -> (r: Option<u64>)
    ensures
        r == u64_keyword(kw@, name@),
{
    match get(kw, name) {
        Some(Json::Number(n)) => match n.kind {
            NumberKind::PosInt(u) => Some(u),
            _ => None,
        },
        _ => None,
    }
}

fn order_of(kw: &Vec<(String, Json)>, name: &str) -> (r: Option<i64>)
    ensures
        r == order_keyword(kw@, name@),
{
    match get(kw, name) {
        Some(Json::Number(n)) => Some(n.order),
        _ => None,
    }
}

fn is_integer_value(j: &Json) -> (r: bool)
    ensures
        r == is_integer(*j),
{
    match j {
        Json::Number(n) => match n.kind {
            NumberKind::Float { whole } => whole,
            _ => true,
        },
        _ => false,
    }
}

fn has_type_of(inst: &Json, name: &str) -> (r: bool)
    ensures
        r == has_type(*inst, name@),
{
    if same_text(name, "integer") {
        is_integer_value(inst)
    } else if same_text(name, "number") {
        matches!(inst, Json::Number(_))
    } else {
        same_text(kind_name_of(inst), name)
    }
}

/// The contents of a list of strings.
pub open spec fn texts(v: Seq<&str>) -> Seq<Seq<char>> {
    v.map_values(|s: &str| s@)
}

/// Appends the `type` issue of `inst`, if any.
pub fn check_type(kw: &Vec<(String, Json)>, inst: &Json, path: &str, out: &mut Vec<ValidationIssue>)
    ensures
        findings(final(out)@) == findings(old(out)@) + type_findings(kw@, *inst, path@),
{
    let ghost start = findings(out@);
    let wanted = match get(kw, "type") {
        Some(w) => w,
        None => {
            assert(findings(out@) =~= start + type_findings(kw@, *inst, path@));
            return;
        },
    };
    let mut allowed: Vec<&str> = Vec::new();
    match wanted {
        Json::Text(one) => {
            allowed.push(one.as_str());
            assert(texts(allowed@) =~= seq![one@]);
        },
        Json::Array(many) => {
            let mut i: usize = 0;
            while i < many.len()
                invariant
                    i <= many@.len(),
                    texts(allowed@) == texts_of(many@.take(i as int)),
                decreases many@.len() - i,
            {
                assert(many@.take(i + 1).drop_last() =~= many@.take(i as int));
                if let Json::Text(one) = &many[i] {
                    allowed.push(one.as_str());
                }
                i = i + 1;
                assert(texts(allowed@) =~= texts_of(many@.take(i as int)));
            }
            assert(many@.take(i as int) =~= many@);
        },
        _ => {
            assert(findings(out@) =~= start + type_findings(kw@, *inst, path@));
            return;
        },
    }
    let ghost a = texts(allowed@);
    assert(allowed_types(*wanted) == Some(a));
    let mut i: usize = 0;
    while i < allowed.len()
        invariant
            i <= allowed@.len(),
            a == texts(allowed@),
            findings(out@) == start,
            lookup(kw@, "type"@) == Some(*wanted),
            allowed_types(*wanted) == Some(a),
            forall|j: int| 0 <= j < i ==> !has_type(*inst, #[trigger] a[j]),
        decreases allowed@.len() - i,
    {
        if has_type_of(inst, allowed[i]) {
            assert(has_type(*inst, a[i as int]));
            assert(findings(out@) =~= start + type_findings(kw@, *inst, path@));
            return;
        }
        i = i + 1;
    }
    let mut message = "is ".to_owned();
    message.append(kind_name_of(inst));
    message.append(", expected ");
    let ghost head = message@;
    let mut k: usize = 0;
    while k < allowed.len()
        invariant
            k <= allowed@.len(),
            a == texts(allowed@),
            findings(out@) == start,
            lookup(kw@, "type"@) == Some(*wanted),
            allowed_types(*wanted) == Some(a),
            forall|j: int| 0 <= j < a.len() ==> !has_type(*inst, #[trigger] a[j]),
            head == "is "@ + kind_name(*inst) + ", expected "@,
            message@ == head + joined(a.take(k as int), " or "@),
        decreases allowed@.len() - k,
    {
        assert(a.take(k + 1).drop_last() =~= a.take(k as int));
        if k > 0 {
            message.append(" or ");
        } else {
            assert(a.take(1) =~= seq![a[0]]);
        }
        message.append(allowed[k]);
        k = k + 1;
        assert(message@ =~= head + joined(a.take(k as int), " or "@));
    }
    assert(a.take(k as int) =~= a);
    push_issue(out, issue("type", message.as_str(), path));
    assert(findings(out@) =~= start + type_findings(kw@, *inst, path@));
}

/// Appends the `enum` and `const` issues of `inst`.
pub fn check_values(kw: &Vec<(String, Json)>, inst: &Json, path: &str, out: &mut Vec<ValidationIssue>)
    ensures
        findings(final(out)@) == findings(old(out)@) + value_findings(kw@, *inst, path@),
{
    let ghost start = findings(out@);
    if let Some(Json::Array(allowed)) = get(kw, "enum") {
        let mut found = false;
        let mut i: usize = 0;
        while i < allowed.len()
            invariant
                i <= allowed@.len(),
                found ==> contains_value(allowed@, *inst),
                !found ==> forall|j: int| 0 <= j < i ==> !same_value(#[trigger] allowed@[j], *inst),
            decreases allowed@.len() - i,
        {
            if json_equal(&allowed[i], inst) {
                assert(same_value(allowed@[i as int], *inst));
                found = true;
            }
            i = i + 1;
        }
        if !found {
            push_issue(out, issue("enum", "is not one of the allowed values", path));
        }
    }
    if let Some(expected) = get(kw, "const") {
        if !json_equal(expected, inst) {
            let mut message = "must be ".to_owned();
            push_rendered(&mut message, expected);
            push_issue(out, issue("const", message.as_str(), path));
        }
    }
    assert(findings(out@) =~= start + value_findings(kw@, *inst, path@));
}

fn check_size(
    kw: &Vec<(String, Json)>,
    size: u64,
    path: &str,
    lower: &str,
    upper: &str,
    before: &str,
    unit: &str,
    out: &mut Vec<ValidationIssue>,
)
    ensures
        findings(final(out)@) == findings(old(out)@) + size_findings(kw@, size as nat, path@, lower@, upper@, before@, unit@),
{
    let ghost start = findings(out@);
    if let Some(min) = u64_of(kw, lower) {
        if size < min {
            let mut message = before.to_owned();
            push_decimal(&mut message, size);
            message.append(unit);
            message.append(", at least ");
            push_decimal(&mut message, min);
            message.append(" required");
            push_issue(out, issue(lower, message.as_str(), path));
        }
    }
    if let Some(max) = u64_of(kw, upper) {
        if size > max {
            let mut message = before.to_owned();
            push_decimal(&mut message, size);
            message.append(unit);
            message.append(", at most ");
            push_decimal(&mut message, max);
            message.append(" allowed");
            push_issue(out, issue(upper, message.as_str(), path));
        }
    }
    assert(findings(out@) =~= start + size_findings(kw@, size as nat, path@, lower@, upper@, before@, unit@));
}

/// Appends the `minLength` and `maxLength` issues of a string `inst`.
pub fn check_string(kw: &Vec<(String, Json)>, inst: &Json, path: &str, out: &mut Vec<ValidationIssue>)
    ensures
        findings(final(out)@) == findings(old(out)@) + string_findings(kw@, *inst, path@),
{
    match inst {
        Json::Text(s) => {
            let length = s.as_str().unicode_len();
            check_size(kw, length as u64, path, "minLength", "maxLength", "is ", " characters", out);
        },
        _ => {
            assert(findings(out@) =~= findings(old(out)@) + string_findings(kw@, *inst, path@));
        },
    }
}

fn check_bound(
    kw: &Vec<(String, Json)>,
    name: &str,
    value: i64,
    shown: &str,
    below: bool,
    strict: bool,
    path: &str,
    out: &mut Vec<ValidationIssue>,
)
    ensures
        findings(final(out)@) == findings(old(out)@) + bound_finding(kw@, name@, value, shown@, below, strict, path@),
{
    let ghost start = findings(out@);
    if let Some(b) = order_of(kw, name) {
        let broken = if below {
            if strict { value <= b } else { value < b }
        } else {
            if strict { value >= b } else { value > b }
        };
        if broken {
            let mut message = shown.to_owned();
            if below {
                if strict {
                    message.append(" is not above the minimum");
                } else {
                    message.append(" is below the minimum");
                }
            } else {
                if strict {
                    message.append(" is not below the maximum");
                } else {
                    message.append(" is above the maximum");
                }
            }
            push_issue(out, issue(name, message.as_str(), path));
        }
    }
    assert(findings(out@) =~= start + bound_finding(kw@, name@, value, shown@, below, strict, path@));
}

/// Appends the issues of the numeric bounds of a number `inst`.
pub fn check_number(kw: &Vec<(String, Json)>, inst: &Json, path: &str, out: &mut Vec<ValidationIssue>)
    ensures
        findings(final(out)@) == findings(old(out)@) + number_findings(kw@, *inst, path@),
{
    let ghost start = findings(out@);
    match inst {
        Json::Number(n) => {
            check_bound(kw, "minimum", n.order, n.shown.as_str(), true, false, path, out);
            check_bound(kw, "maximum", n.order, n.shown.as_str(), false, false, path, out);
            check_bound(kw, "exclusiveMinimum", n.order, n.shown.as_str(), true, true, path, out);
            check_bound(kw, "exclusiveMaximum", n.order, n.shown.as_str(), false, true, path, out);
        },
        _ => {},
    }
    assert(findings(out@) =~= start + number_findings(kw@, *inst, path@));
}

} // verus!

verus! {

proof fn lemma_members_halt_at(
    root: Json,
    kw: Seq<(String, Json)>,
    members: Seq<(String, Json)>,
    path: Seq<char>,
    f: nat,
    n: int,
    k: int,
)
    requires
        0 <= k < n <= members.len(),
        members_halt(root, kw, members, path, f, n),
    ensures
        member_halts(root, kw, members[k].0@, members[k].1, path, f),
    decreases n,
{
    if k < n - 1 {
        lemma_members_halt_at(root, kw, members, path, f, n - 1, k);
    }
}

proof fn lemma_items_halt_at(root: Json, sub: Json, items: Seq<Json>, path: Seq<char>, f: nat, n: int, k: int)
    requires
        0 <= k < n <= items.len(),
        items_halt(root, sub, items, path, f, n),
    ensures
        halts(root, sub, items[k], child(path, decimal(k as nat)), f),
    decreases n,
{
    if k < n - 1 {
        lemma_items_halt_at(root, sub, items, path, f, n - 1, k);
    }
}

proof fn lemma_all_halt_at(root: Json, bs: Seq<Json>, inst: Json, path: Seq<char>, f: nat, n: int, k: int)
    requires
        0 <= k < n <= bs.len(),
        all_halt(root, bs, inst, path, f, n),
    ensures
        halts(root, bs[k], inst, path, f),
    decreases n,
{
    if k < n - 1 {
        lemma_all_halt_at(root, bs, inst, path, f, n - 1, k);
    }
}

fn check_ref(
    root: &Json,
    kw: &Vec<(String, Json)>,
    inst: &Json,
    path: &str,
    Ghost(f): Ghost<nat>,
    out: &mut Vec<ValidationIssue>,
)
    requires
        ref_halts(*root, kw@, *inst, path@, f),
    ensures
        findings(final(out)@) == findings(old(out)@) + ref_findings(*root, kw@, *inst, path@, f),
    decreases f, 1nat, 0int,
{
    let ghost start = findings(out@);
    if let Some(Json::Text(reference)) = get(kw, "$ref") {
        match resolve_ref(root, reference.as_str()) {
            Some(target) => {
                let more = check_at(root, target, inst, path, Ghost(f));
                push_issues(out, more);
            },
            None => {
                let mut message = "unresolvable ".to_owned();
                message.append(reference.as_str());
                push_issue(out, issue("$ref", message.as_str(), path));
            },
        }
    }
    assert(findings(out@) =~= start + ref_findings(*root, kw@, *inst, path@, f));
}

fn check_required(kw: &Vec<(String, Json)>, members: &Vec<(String, Json)>, path: &str, out: &mut Vec<ValidationIssue>)
    ensures
        findings(final(out)@) == findings(old(out)@) + required_part(kw@, members@, path@),
{
    let ghost start = findings(out@);
    if let Some(Json::Array(required)) = get(kw, "required") {
        let mut i: usize = 0;
        while i < required.len()
            invariant
                i <= required@.len(),
                findings(out@) == start + required_findings(required@, members@, path@, i as int),
            decreases required@.len() - i,
        {
            if let Json::Text(name) = &required[i] {
                if get(members, name.as_str()).is_none() {
                    let mut message = "missing property ".to_owned();
                    message.append(name.as_str());
                    let at = child_path(path, name.as_str());
                    push_issue(out, issue("required", message.as_str(), at.as_str()));
                }
            }
            i = i + 1;
            assert(findings(out@) =~= start + required_findings(required@, members@, path@, i as int));
        }
    }
    assert(findings(out@) =~= start + required_part(kw@, members@, path@));
}

fn check_member(
    root: &Json,
    kw: &Vec<(String, Json)>,
    name: &String,
    value: &Json,
    path: &str,
    Ghost(f): Ghost<nat>,
    out: &mut Vec<ValidationIssue>,
)
    requires
        member_halts(*root, kw@, name@, *value, path@, f),
    ensures
        findings(final(out)@) == findings(old(out)@) + member_findings(*root, kw@, name@, *value, path@, f),
    decreases f, 1nat, 0int,
{
    let ghost start = findings(out@);
    let at = child_path(path, name.as_str());
    let declared_schema = match get(kw, "properties") {
        Some(Json::Object(props)) => get(props, name.as_str()),
        _ => None,
    };
    match declared_schema {
        Some(sub) => {
            let more = check_at(root, sub, value, at.as_str(), Ghost(f));
            push_issues(out, more);
        },
        None => match get(kw, "additionalProperties") {
            Some(Json::Bool(false)) => {
                push_issue(out, issue("additionalProperties", "is not a declared property", at.as_str()));
            },
            Some(other) => {
                if let Json::Object(_) = other {
                    let more = check_at(root, other, value, at.as_str(), Ghost(f));
                    push_issues(out, more);
                }
            },
            None => {},
        },
    }
    assert(findings(out@) =~= start + member_findings(*root, kw@, name@, *value, path@, f));
}

/// Appends the `required` issues of an object `inst`, then what each of its
/// members reports under `properties` or `additionalProperties`.
pub fn check_object(
    root: &Json,
    kw: &Vec<(String, Json)>,
    inst: &Json,
    path: &str,
    Ghost(f): Ghost<nat>,
    out: &mut Vec<ValidationIssue>,
)
    requires
        object_halts(*root, kw@, *inst, path@, f),
    ensures
        findings(final(out)@) == findings(old(out)@) + object_findings(*root, kw@, *inst, path@, f),
        findings(final(out)@) == findings(old(out)@) + object_checks(*root, kw@, *inst, path@),
    decreases f, 2nat, 0int,
{
    let ghost start = findings(out@);
    if let Json::Object(members) = inst {
        check_required(kw, members, path, out);
        let ghost mid = findings(out@);
        let mut i: usize = 0;
        while i < members.len()
            invariant
                i <= members@.len(),
                members_halt(*root, kw@, members@, path@, f, members@.len() as int),
                findings(out@) == mid + members_findings(*root, kw@, members@, path@, f, i as int),
            decreases members@.len() - i,
        {
            proof {
                lemma_members_halt_at(*root, kw@, members@, path@, f, members@.len() as int, i as int);
            }
            check_member(root, kw, &members[i].0, &members[i].1, path, Ghost(f), out);
            i = i + 1;
            assert(findings(out@) =~= mid + members_findings(*root, kw@, members@, path@, f, i as int));
        }
    }
    assert(findings(out@) =~= start + object_findings(*root, kw@, *inst, path@, f));
    proof {
        lemma_object_checks(*root, kw@, *inst, path@, f);
    }
}

/// Appends the `minItems` and `maxItems` issues of an array `inst`, then what
/// each of its elements reports under `items`.
pub fn check_array(
    root: &Json,
    kw: &Vec<(String, Json)>,
    inst: &Json,
    path: &str,
    Ghost(f): Ghost<nat>,
    out: &mut Vec<ValidationIssue>,
)
    requires
        array_halts(*root, kw@, *inst, path@, f),
    ensures
        findings(final(out)@) == findings(old(out)@) + array_findings(*root, kw@, *inst, path@, f),
        findings(final(out)@) == findings(old(out)@) + array_checks(*root, kw@, *inst, path@),
    decreases f, 2nat, 0int,
{
    let ghost start = findings(out@);
    if let Json::Array(items) = inst {
        check_size(kw, items.len() as u64, path, "minItems", "maxItems", "has ", " items", out);
        let ghost mid = findings(out@);
        if let Some(sub) = get(kw, "items") {
            let mut i: usize = 0;
            while i < items.len()
                invariant
                    i <= items@.len(),
                    items_halt(*root, *sub, items@, path@, f, items@.len() as int),
                    findings(out@) == mid + items_findings(*root, *sub, items@, path@, f, i as int),
                decreases items@.len() - i,
            {
                proof {
                    lemma_items_halt_at(*root, *sub, items@, path@, f, items@.len() as int, i as int);
                }
                let mut index = String::new();
                push_decimal(&mut index, i as u64);
                assert(index@ =~= decimal(i as nat));
                let at = child_path(path, index.as_str());
                let more = check_at(root, sub, &items[i], at.as_str(), Ghost(f));
                push_issues(out, more);
                i = i + 1;
                assert(findings(out@) =~= mid + items_findings(*root, *sub, items@, path@, f, i as int));
            }
        }
    }
    assert(findings(out@) =~= start + array_findings(*root, kw@, *inst, path@, f));
    proof {
        lemma_array_checks(*root, kw@, *inst, path@, f);
    }
}

fn any_matches(root: &Json, bs: &Vec<Json>, inst: &Json, path: &str, Ghost(f): Ghost<nat>) -> (r: bool)
    requires
        any_halts(*root, bs@, *inst, path@, f, 0),
    ensures
        r == matches_any(*root, bs@, *inst, path@, f, 0),
    decreases f, 1nat, 0int,
{
    let mut i: usize = 0;
    while i < bs.len()
        invariant
            i <= bs@.len(),
            any_halts(*root, bs@, *inst, path@, f, i as int),
            matches_any(*root, bs@, *inst, path@, f, 0) == matches_any(*root, bs@, *inst, path@, f, i as int),
        decreases bs@.len() - i,
    {
        let found = check_at(root, &bs[i], inst, path, Ghost(f));
        if found.len() == 0 {
            return true;
        }
        i = i + 1;
    }
    false
}

fn one_count(root: &Json, bs: &Vec<Json>, inst: &Json, path: &str, Ghost(f): Ghost<nat>) -> (r: usize)
    requires
        all_halt(*root, bs@, *inst, path@, f, bs@.len() as int),
    ensures
        r == match_count(*root, bs@, *inst, path@, f, bs@.len() as int),
    decreases f, 1nat, 0int,
{
    let mut count: usize = 0;
    let mut i: usize = 0;
    while i < bs.len()
        invariant
            i <= bs@.len(),
            count <= i,
            all_halt(*root, bs@, *inst, path@, f, bs@.len() as int),
            count == match_count(*root, bs@, *inst, path@, f, i as int),
        decreases bs@.len() - i,
    {
        proof {
            lemma_all_halt_at(*root, bs@, *inst, path@, f, bs@.len() as int, i as int);
        }
        let found = check_at(root, &bs[i], inst, path, Ghost(f));
        if found.len() == 0 {
            count = count + 1;
        }
        i = i + 1;
    }
    count
}

/// Appends what `allOf` reports, then the `anyOf`, `oneOf` and `not` issues.
pub fn check_composition(
    root: &Json,
    kw: &Vec<(String, Json)>,
    inst: &Json,
    path: &str,
    Ghost(f): Ghost<nat>,
    out: &mut Vec<ValidationIssue>,
)
    requires
        composition_halts(*root, kw@, *inst, path@, f),
    ensures
        findings(final(out)@) == findings(old(out)@) + composition_findings(*root, kw@, *inst, path@, f),
        findings(final(out)@) == findings(old(out)@) + composition_checks(*root, kw@, *inst, path@),
    decreases f, 2nat, 0int,
{
    let ghost start = findings(out@);
    let none: Vec<Json> = Vec::new();
    let all: &Vec<Json> = match get(kw, "allOf") {
        Some(Json::Array(b)) => b,
        _ => &none,
    };
    let any: &Vec<Json> = match get(kw, "anyOf") {
        Some(Json::Array(b)) => b,
        _ => &none,
    };
    let one: &Vec<Json> = match get(kw, "oneOf") {
        Some(Json::Array(b)) => b,
        _ => &none,
    };
    assert(all@ == branches(kw@, "allOf"@));
    assert(any@ == branches(kw@, "anyOf"@));
    assert(one@ == branches(kw@, "oneOf"@));
    let mut i: usize = 0;
    while i < all.len()
        invariant
            i <= all@.len(),
            all_halt(*root, all@, *inst, path@, f, all@.len() as int),
            findings(out@) == start + all_findings(*root, all@, *inst, path@, f, i as int),
        decreases all@.len() - i,
    {
        proof {
            lemma_all_halt_at(*root, all@, *inst, path@, f, all@.len() as int, i as int);
        }
        let more = check_at(root, &all[i], inst, path, Ghost(f));
        push_issues(out, more);
        i = i + 1;
        assert(findings(out@) =~= start + all_findings(*root, all@, *inst, path@, f, i as int));
    }
    if any.len() > 0 && !any_matches(root, any, inst, path, Ghost(f)) {
        push_issue(out, issue("anyOf", "matches none of the alternatives", path));
    }
    if one.len() > 0 {
        let matching = one_count(root, one, inst, path, Ghost(f));
        if matching != 1 {
            let mut message = "matches ".to_owned();
            push_decimal(&mut message, matching as u64);
            message.append(" alternatives, exactly one required");
            push_issue(out, issue("oneOf", message.as_str(), path));
        }
    }
    if let Some(forbidden) = get(kw, "not") {
        let found = check_at(root, forbidden, inst, path, Ghost(f));
        if found.len() == 0 {
            push_issue(out, issue("not", "matches a schema it must not", path));
        }
    }
    assert(findings(out@) =~= start + composition_findings(*root, kw@, *inst, path@, f));
    proof {
        lemma_composition_checks(*root, kw@, *inst, path@, f);
    }
}

/// What `schema` reports of `inst` at `path`, within `fuel` nested evaluations.
fn check_at(root: &Json, schema: &Json, inst: &Json, path: &str, Ghost(fuel): Ghost<nat>) -> (r: Vec<ValidationIssue>)
    requires
        halts(*root, *schema, *inst, path@, fuel),
    ensures
        findings(r@) == evaluate(*root, *schema, *inst, path@, fuel),
    decreases fuel, 0nat, 0int,
{
    let ghost f = (fuel - 1) as nat;
    let mut out: Vec<ValidationIssue> = Vec::new();
    match schema {
        Json::Bool(b) => {
            if !*b {
                push_issue(&mut out, issue("false", "nothing is allowed here", path));
            }
        },
        Json::Object(kw) => {
            check_ref(root, kw, inst, path, Ghost(f), &mut out);
            check_type(kw, inst, path, &mut out);
            check_values(kw, inst, path, &mut out);
            check_object(root, kw, inst, path, Ghost(f), &mut out);
            check_array(root, kw, inst, path, Ghost(f), &mut out);
            check_string(kw, inst, path, &mut out);
            check_number(kw, inst, path, &mut out);
            check_composition(root, kw, inst, path, Ghost(f), &mut out);
        },
        _ => {},
    }
    assert(findings(out@) =~= evaluate(*root, *schema, *inst, path@, fuel));
    out
}

/// Whether evaluating `schema` on `inst` at `path` finishes.
pub open spec fn terminates(root: Json, schema: Json, inst: Json, path: Seq<char>) -> bool {
    exists|fuel: nat| halts(root, schema, inst, path, fuel)
}

/// What evaluating `schema` on `inst` at `path` reports, when it finishes.
pub open spec fn check_findings(root: Json, schema: Json, inst: Json, path: Seq<char>) -> Seq<Finding> {
    evaluate(root, schema, inst, path, choose|fuel: nat| halts(root, schema, inst, path, fuel))
}

/// Evaluate `instance` at `path` against `schema`, resolving `$ref` in `root`.
pub fn check(root: &Json, schema: &Json, instance: &Json, path: &str) -> (r: Vec<ValidationIssue>)
    requires
        terminates(*root, *schema, *instance, path@),
    ensures
        findings(r@) == check_findings(*root, *schema, *instance, path@),
{
    let ghost fuel = choose|fuel: nat| halts(*root, *schema, *instance, path@, fuel);
    check_at(root, schema, instance, path, Ghost(fuel))
}

/// Whether evaluating `schema` on `inst` at `path` finishes within `fuel`
/// nested evaluations, decided as `halts` says.
fn halts_within(root: &Json, schema: &Json, inst: &Json, path: &str, fuel: u64) -> (r: bool)
    ensures
        r == halts(*root, *schema, *inst, path@, fuel as nat),
    decreases fuel, 0nat,
{
    if fuel == 0 {
        return false;
    }
    match schema {
        Json::Object(kw) => keywords_halt_within(root, kw, inst, path, fuel - 1),
        _ => true,
    }
}

fn keywords_halt_within(root: &Json, kw: &Vec<(String, Json)>, inst: &Json, path: &str, f: u64) -> (r: bool)
    ensures
        r == keywords_halt(*root, kw@, *inst, path@, f as nat),
    decreases f, 3nat,
{
    ref_halts_within(root, kw, inst, path, f) && object_halts_within(root, kw, inst, path, f)
        && array_halts_within(root, kw, inst, path, f) && composition_halts_within(root, kw, inst, path, f)
}

fn ref_halts_within(root: &Json, kw: &Vec<(String, Json)>, inst: &Json, path: &str, f: u64) -> (r: bool)
    ensures
        r == ref_halts(*root, kw@, *inst, path@, f as nat),
    decreases f, 2nat,
{
    if let Some(Json::Text(reference)) = get(kw, "$ref") {
        match resolve_ref(root, reference.as_str()) {
            Some(target) => halts_within(root, target, inst, path, f),
            None => true,
        }
    } else {
        true
    }
}

fn member_halts_within(
    root: &Json,
    kw: &Vec<(String, Json)>,
    name: &String,
    value: &Json,
    path: &str,
    f: u64,
) -> (r: bool)
    ensures
        r == member_halts(*root, kw@, name@, *value, path@, f as nat),
    decreases f, 1nat,
{
    let at = child_path(path, name.as_str());
    let declared_schema = match get(kw, "properties") {
        Some(Json::Object(props)) => get(props, name.as_str()),
        _ => None,
    };
    match declared_schema {
        Some(sub) => halts_within(root, sub, value, at.as_str(), f),
        None => match get(kw, "additionalProperties") {
            Some(other) => match other {
                Json::Object(_) => halts_within(root, other, value, at.as_str(), f),
                _ => true,
            },
            None => true,
        },
    }
}

fn object_halts_within(root: &Json, kw: &Vec<(String, Json)>, inst: &Json, path: &str, f: u64) -> (r: bool)
    ensures
        r == object_halts(*root, kw@, *inst, path@, f as nat),
    decreases f, 2nat,
{
    if let Json::Object(members) = inst {
        let mut i: usize = 0;
        while i < members.len()
            invariant
                i <= members@.len(),
                members_halt(*root, kw@, members@, path@, f as nat, i as int),
                object_halts(*root, kw@, *inst, path@, f as nat) == members_halt(
                    *root,
                    kw@,
                    members@,
                    path@,
                    f as nat,
                    members@.len() as int,
                ),
            decreases members@.len() - i,
        {
            if !member_halts_within(root, kw, &members[i].0, &members[i].1, path, f) {
                proof {
                    if members_halt(*root, kw@, members@, path@, f as nat, members@.len() as int) {
                        lemma_members_halt_at(*root, kw@, members@, path@, f as nat, members@.len() as int, i as int);
                    }
                }
                return false;
            }
            i = i + 1;
        }
        true
    } else {
        true
    }
}

fn array_halts_within(root: &Json, kw: &Vec<(String, Json)>, inst: &Json, path: &str, f: u64) -> (r: bool)
    ensures
        r == array_halts(*root, kw@, *inst, path@, f as nat),
    decreases f, 2nat,
{
    if let Json::Array(items) = inst {
        if let Some(sub) = get(kw, "items") {
            let mut i: usize = 0;
            while i < items.len()
                invariant
                    i <= items@.len(),
                    items_halt(*root, *sub, items@, path@, f as nat, i as int),
                    array_halts(*root, kw@, *inst, path@, f as nat) == items_halt(
                        *root,
                        *sub,
                        items@,
                        path@,
                        f as nat,
                        items@.len() as int,
                    ),
                decreases items@.len() - i,
            {
                let mut index = String::new();
                push_decimal(&mut index, i as u64);
                assert(index@ =~= decimal(i as nat));
                let at = child_path(path, index.as_str());
                if !halts_within(root, sub, &items[i], at.as_str(), f) {
                    proof {
                        if items_halt(*root, *sub, items@, path@, f as nat, items@.len() as int) {
                            lemma_items_halt_at(*root, *sub, items@, path@, f as nat, items@.len() as int, i as int);
                        }
                    }
                    return false;
                }
                i = i + 1;
            }
            return true;
        }
    }
    true
}

fn all_halt_within(root: &Json, bs: &Vec<Json>, inst: &Json, path: &str, f: u64) -> (r: bool)
    ensures
        r == all_halt(*root, bs@, *inst, path@, f as nat, bs@.len() as int),
    decreases f, 1nat,
{
    let mut i: usize = 0;
    while i < bs.len()
        invariant
            i <= bs@.len(),
            all_halt(*root, bs@, *inst, path@, f as nat, i as int),
        decreases bs@.len() - i,
    {
        if !halts_within(root, &bs[i], inst, path, f) {
            proof {
                if all_halt(*root, bs@, *inst, path@, f as nat, bs@.len() as int) {
                    lemma_all_halt_at(*root, bs@, *inst, path@, f as nat, bs@.len() as int, i as int);
                }
            }
            return false;
        }
        i = i + 1;
    }
    true
}

fn any_halts_within(root: &Json, bs: &Vec<Json>, inst: &Json, path: &str, f: u64) -> (r: bool)
    ensures
        r == any_halts(*root, bs@, *inst, path@, f as nat, 0),
    decreases f, 1nat,
{
    let mut i: usize = 0;
    while i < bs.len()
        invariant
            i <= bs@.len(),
            any_halts(*root, bs@, *inst, path@, f as nat, 0) == any_halts(*root, bs@, *inst, path@, f as nat, i as int),
        decreases bs@.len() - i,
    {
        if !halts_within(root, &bs[i], inst, path, f) {
            return false;
        }
        let found = check_at(root, &bs[i], inst, path, Ghost(f as nat));
        if found.len() == 0 {
            return true;
        }
        i = i + 1;
    }
    true
}

fn composition_halts_within(root: &Json, kw: &Vec<(String, Json)>, inst: &Json, path: &str, f: u64) -> (r: bool)
    ensures
        r == composition_halts(*root, kw@, *inst, path@, f as nat),
    decreases f, 2nat,
{
    let none: Vec<Json> = Vec::new();
    let all: &Vec<Json> = match get(kw, "allOf") {
        Some(Json::Array(b)) => b,
        _ => &none,
    };
    let any: &Vec<Json> = match get(kw, "anyOf") {
        Some(Json::Array(b)) => b,
        _ => &none,
    };
    let one: &Vec<Json> = match get(kw, "oneOf") {
        Some(Json::Array(b)) => b,
        _ => &none,
    };
    assert(all@ == branches(kw@, "allOf"@));
    assert(any@ == branches(kw@, "anyOf"@));
    assert(one@ == branches(kw@, "oneOf"@));
    let finished = all_halt_within(root, all, inst, path, f) && any_halts_within(root, any, inst, path, f)
        && all_halt_within(root, one, inst, path, f);
    if !finished {
        return false;
    }
    match get(kw, "not") {
        Some(forbidden) => halts_within(root, forbidden, inst, path, f),
        None => true,
    }
}

/// Evaluate `instance` at `path` against `schema` when that finishes within
/// `depth` nested evaluations, as `check` does; `None` when it does not.
pub fn check_within(root: &Json, schema: &Json, instance: &Json, path: &str, depth: u64) -> (r: Option<
    Vec<ValidationIssue>,
>)
    ensures
        (r is Some) == halts(*root, *schema, *instance, path@, depth as nat),
        r matches Some(v) ==> terminates(*root, *schema, *instance, path@) && findings(v@) == check_findings(
            *root,
            *schema,
            *instance,
            path@,
        ),
{
    if halts_within(root, schema, instance, path, depth) {
        assert(terminates(*root, *schema, *instance, path@));
        Some(check(root, schema, instance, path))
    } else {
        None
    }
}

/// What is reported of one member of an object instance, each schema it is
/// held to reporting what `check` reports.
pub open spec fn member_checks(
    root: Json,
    kw: Seq<(String, Json)>,
    name: Seq<char>,
    value: Json,
    path: Seq<char>,
) -> Seq<Finding> {
    let at = child(path, name);
    match declared(properties_of(kw), name) {
        Some(sub) => check_findings(root, sub, value, at),
        None => match lookup(kw, "additionalProperties"@) {
            Some(Json::Bool(false)) => seq![finding("additionalProperties"@, "is not a declared property"@, at)],
            Some(a) => if a is Object {
                check_findings(root, a, value, at)
            } else {
                seq![]
            },
            None => seq![],
        },
    }
}

/// What `member_checks` reports of the first `n` members.
pub open spec fn members_checks(
    root: Json,
    kw: Seq<(String, Json)>,
    members: Seq<(String, Json)>,
    path: Seq<char>,
    n: int,
) -> Seq<Finding>
    decreases n,
{
    if n <= 0 || n > members.len() {
        seq![]
    } else {
        members_checks(root, kw, members, path, n - 1) + member_checks(
            root,
            kw,
            members[n - 1].0@,
            members[n - 1].1,
            path,
        )
    }
}

/// `required`, `properties` and `additionalProperties` on an object instance,
/// each member's schema reporting what `check` reports.
pub open spec fn object_checks(root: Json, kw: Seq<(String, Json)>, inst: Json, path: Seq<char>) -> Seq<Finding> {
    match inst {
        Json::Object(m) => required_part(kw, m@, path) + members_checks(root, kw, m@, path, m@.len() as int),
        _ => seq![],
    }
}

/// What `check` reports of each of the first `n` elements under `sub`.
pub open spec fn items_checks(root: Json, sub: Json, items: Seq<Json>, path: Seq<char>, n: int) -> Seq<Finding>
    decreases n,
{
    if n <= 0 || n > items.len() {
        seq![]
    } else {
        items_checks(root, sub, items, path, n - 1) + check_findings(
            root,
            sub,
            items[n - 1],
            child(path, decimal((n - 1) as nat)),
        )
    }
}

/// `minItems`, `maxItems` and `items` on an array instance, each element
/// reported as `check` reports it.
pub open spec fn array_checks(root: Json, kw: Seq<(String, Json)>, inst: Json, path: Seq<char>) -> Seq<Finding> {
    match inst {
        Json::Array(items) => size_findings(kw, items@.len(), path, "minItems"@, "maxItems"@, "has "@, " items"@)
            + match lookup(kw, "items"@) {
            Some(sub) => items_checks(root, sub, items@, path, items@.len() as int),
            None => seq![],
        },
        _ => seq![],
    }
}

/// What `check` reports of the first `n` of `bs`, together.
pub open spec fn all_checks(root: Json, bs: Seq<Json>, inst: Json, path: Seq<char>, n: int) -> Seq<Finding>
    decreases n,
{
    if n <= 0 || n > bs.len() {
        seq![]
    } else {
        all_checks(root, bs, inst, path, n - 1) + check_findings(root, bs[n - 1], inst, path)
    }
}

/// How many of the first `n` of `bs` `check` reports nothing for.
pub open spec fn checks_matching(root: Json, bs: Seq<Json>, inst: Json, path: Seq<char>, n: int) -> nat
    decreases n,
{
    if n <= 0 || n > bs.len() {
        0
    } else {
        checks_matching(root, bs, inst, path, n - 1) + if check_findings(root, bs[n - 1], inst, path).len() == 0 {
            1nat
        } else {
            0nat
        }
    }
}

/// Whether `check` reports nothing for one of `bs`, from index `i` on.
pub open spec fn check_matches_any(root: Json, bs: Seq<Json>, inst: Json, path: Seq<char>, i: int) -> bool
    decreases bs.len() - i,
{
    0 <= i < bs.len() && (check_findings(root, bs[i], inst, path).len() == 0 || check_matches_any(
        root,
        bs,
        inst,
        path,
        i + 1,
    ))
}

/// `allOf`, `anyOf`, `oneOf` and `not`, each branch reported as `check`
/// reports it.
pub open spec fn composition_checks(root: Json, kw: Seq<(String, Json)>, inst: Json, path: Seq<char>) -> Seq<Finding> {
    let all = branches(kw, "allOf"@);
    let any = branches(kw, "anyOf"@);
    let one = branches(kw, "oneOf"@);
    let count = checks_matching(root, one, inst, path, one.len() as int);
    all_checks(root, all, inst, path, all.len() as int) + (if any.len() > 0 && !check_matches_any(
        root,
        any,
        inst,
        path,
        0,
    ) {
        seq![finding("anyOf"@, "matches none of the alternatives"@, path)]
    } else {
        seq![]
    }) + (if one.len() > 0 && count != 1 {
        seq![finding("oneOf"@, "matches "@ + decimal(count) + " alternatives, exactly one required"@, path)]
    } else {
        seq![]
    }) + match lookup(kw, "not"@) {
        Some(x) => if check_findings(root, x, inst, path).len() == 0 {
            seq![finding("not"@, "matches a schema it must not"@, path)]
        } else {
            seq![]
        },
        None => seq![],
    }
}

proof fn lemma_member_checks(
    root: Json,
    kw: Seq<(String, Json)>,
    name: Seq<char>,
    value: Json,
    path: Seq<char>,
    f: nat,
)
    requires
        member_halts(root, kw, name, value, path, f),
    ensures
        member_findings(root, kw, name, value, path, f) == member_checks(root, kw, name, value, path),
{
    let at = child(path, name);
    match declared(properties_of(kw), name) {
        Some(sub) => law_check_is_any_finishing_evaluation(root, sub, value, at, f),
        None => match lookup(kw, "additionalProperties"@) {
            Some(a) => {
                if a is Object {
                    law_check_is_any_finishing_evaluation(root, a, value, at, f);
                }
            },
            None => {},
        },
    }
}

proof fn lemma_members_checks(
    root: Json,
    kw: Seq<(String, Json)>,
    members: Seq<(String, Json)>,
    path: Seq<char>,
    f: nat,
    n: int,
)
    requires
        members_halt(root, kw, members, path, f, n),
    ensures
        members_findings(root, kw, members, path, f, n) == members_checks(root, kw, members, path, n),
    decreases n,
{
    if n > 0 && n <= members.len() {
        lemma_members_checks(root, kw, members, path, f, n - 1);
        lemma_member_checks(root, kw, members[n - 1].0@, members[n - 1].1, path, f);
    }
}

proof fn lemma_object_checks(root: Json, kw: Seq<(String, Json)>, inst: Json, path: Seq<char>, f: nat)
    requires
        object_halts(root, kw, inst, path, f),
    ensures
        object_findings(root, kw, inst, path, f) == object_checks(root, kw, inst, path),
{
    if let Json::Object(m) = inst {
        lemma_members_checks(root, kw, m@, path, f, m@.len() as int);
    }
}

proof fn lemma_items_checks(root: Json, sub: Json, items: Seq<Json>, path: Seq<char>, f: nat, n: int)
    requires
        items_halt(root, sub, items, path, f, n),
    ensures
        items_findings(root, sub, items, path, f, n) == items_checks(root, sub, items, path, n),
    decreases n,
{
    if n > 0 && n <= items.len() {
        lemma_items_checks(root, sub, items, path, f, n - 1);
        law_check_is_any_finishing_evaluation(root, sub, items[n - 1], child(path, decimal((n - 1) as nat)), f);
    }
}

proof fn lemma_array_checks(root: Json, kw: Seq<(String, Json)>, inst: Json, path: Seq<char>, f: nat)
    requires
        array_halts(root, kw, inst, path, f),
    ensures
        array_findings(root, kw, inst, path, f) == array_checks(root, kw, inst, path),
{
    if let Json::Array(items) = inst {
        if let Some(sub) = lookup(kw, "items"@) {
            lemma_items_checks(root, sub, items@, path, f, items@.len() as int);
        }
    }
}

proof fn lemma_all_checks(root: Json, bs: Seq<Json>, inst: Json, path: Seq<char>, f: nat, n: int)
    requires
        all_halt(root, bs, inst, path, f, n),
    ensures
        all_findings(root, bs, inst, path, f, n) == all_checks(root, bs, inst, path, n),
        match_count(root, bs, inst, path, f, n) == checks_matching(root, bs, inst, path, n),
    decreases n,
{
    if n > 0 && n <= bs.len() {
        lemma_all_checks(root, bs, inst, path, f, n - 1);
        law_check_is_any_finishing_evaluation(root, bs[n - 1], inst, path, f);
    }
}

proof fn lemma_any_checks(root: Json, bs: Seq<Json>, inst: Json, path: Seq<char>, f: nat, i: int)
    requires
        any_halts(root, bs, inst, path, f, i),
    ensures
        matches_any(root, bs, inst, path, f, i) == check_matches_any(root, bs, inst, path, i),
    decreases bs.len() - i,
{
    if 0 <= i < bs.len() {
        law_check_is_any_finishing_evaluation(root, bs[i], inst, path, f);
        if evaluate(root, bs[i], inst, path, f).len() != 0 {
            lemma_any_checks(root, bs, inst, path, f, i + 1);
        }
    }
}

proof fn lemma_composition_checks(root: Json, kw: Seq<(String, Json)>, inst: Json, path: Seq<char>, f: nat)
    requires
        composition_halts(root, kw, inst, path, f),
    ensures
        composition_findings(root, kw, inst, path, f) == composition_checks(root, kw, inst, path),
{
    let all = branches(kw, "allOf"@);
    let any = branches(kw, "anyOf"@);
    let one = branches(kw, "oneOf"@);
    lemma_all_checks(root, all, inst, path, f, all.len() as int);
    lemma_any_checks(root, any, inst, path, f, 0);
    lemma_all_checks(root, one, inst, path, f, one.len() as int);
    if let Some(x) = lookup(kw, "not"@) {
        law_check_is_any_finishing_evaluation(root, x, inst, path, f);
    }
}

} // verus!
