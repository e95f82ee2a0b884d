//! What each keyword reports, stated over the values it looks at: the schema
//! objects here hold that one keyword, so what they report is the keyword's
//! own doing.
use vstd::prelude::*;

use crate::contract::Finding;
use crate::text::decimal;
use crate::json::{has_key, lookup, same_value, Json, Number, NumberKind};
use crate::schema::{
    all_findings, array_findings, composition_findings, evaluate, finding, keyword_findings, matches_any,
    member_findings, members_findings, number_findings, object_findings, ref_findings, string_findings,
    type_findings, value_findings, branches, match_count, required_findings, child,
    bound_finding, issue_path, properties_of, order_keyword, u64_keyword, allowed_types, has_type, texts_of, items_findings, size_findings,
};

verus! {

/// The keyword names of the vocabulary, as literals Verus reads.
proof fn lemma_reveal_keywords()
    ensures
        "$ref"@.len() == 4,
        "$ref"@[0] == '$',
        "$ref"@[1] == 'r',
        "type"@.len() == 4,
        "type"@[0] == 't',
        "type"@[1] == 'y',
        "enum"@.len() == 4,
        "enum"@[0] == 'e',
        "enum"@[1] == 'n',
        "const"@.len() == 5,
        "const"@[0] == 'c',
        "const"@[1] == 'o',
        "properties"@.len() == 10,
        "properties"@[0] == 'p',
        "properties"@[1] == 'r',
        "required"@.len() == 8,
        "required"@[0] == 'r',
        "required"@[1] == 'e',
        "additionalProperties"@.len() == 20,
        "additionalProperties"@[0] == 'a',
        "additionalProperties"@[1] == 'd',
        "items"@.len() == 5,
        "items"@[0] == 'i',
        "items"@[1] == 't',
        "minItems"@.len() == 8,
        "minItems"@[0] == 'm',
        "minItems"@[1] == 'i',
        "maxItems"@.len() == 8,
        "maxItems"@[0] == 'm',
        "maxItems"@[1] == 'a',
        "minLength"@.len() == 9,
        "minLength"@[0] == 'm',
        "minLength"@[1] == 'i',
        "maxLength"@.len() == 9,
        "maxLength"@[0] == 'm',
        "maxLength"@[1] == 'a',
        "minimum"@.len() == 7,
        "minimum"@[0] == 'm',
        "minimum"@[1] == 'i',
        "maximum"@.len() == 7,
        "maximum"@[0] == 'm',
        "maximum"@[1] == 'a',
        "exclusiveMinimum"@.len() == 16,
        "exclusiveMinimum"@[0] == 'e',
        "exclusiveMinimum"@[1] == 'x',
        "exclusiveMaximum"@.len() == 16,
        "exclusiveMaximum"@[0] == 'e',
        "exclusiveMaximum"@[1] == 'x',
        "allOf"@.len() == 5,
        "allOf"@[0] == 'a',
        "allOf"@[1] == 'l',
        "anyOf"@.len() == 5,
        "anyOf"@[0] == 'a',
        "anyOf"@[1] == 'n',
        "oneOf"@.len() == 5,
        "oneOf"@[0] == 'o',
        "oneOf"@[1] == 'n',
        "not"@.len() == 3,
        "not"@[0] == 'n',
        "not"@[1] == 'o',
        "exclusiveMinimum"@[10] == 'i',
        "exclusiveMaximum"@[10] == 'a',
{
    reveal_strlit("$ref");
    reveal_strlit("type");
    reveal_strlit("enum");
    reveal_strlit("const");
    reveal_strlit("properties");
    reveal_strlit("required");
    reveal_strlit("additionalProperties");
    reveal_strlit("items");
    reveal_strlit("minItems");
    reveal_strlit("maxItems");
    reveal_strlit("minLength");
    reveal_strlit("maxLength");
    reveal_strlit("minimum");
    reveal_strlit("maximum");
    reveal_strlit("exclusiveMinimum");
    reveal_strlit("exclusiveMaximum");
    reveal_strlit("allOf");
    reveal_strlit("anyOf");
    reveal_strlit("oneOf");
    reveal_strlit("not");
}

proof fn lemma_sole_lookup(kw: Seq<(String, Json)>, key: Seq<char>)
    requires
        kw.len() == 1,
    ensures
        lookup(kw, key) == if kw[0].0@ == key {
            Some(kw[0].1)
        } else {
            None
        },
{
    assert(kw.drop_first().len() == 0);
    assert(lookup(kw.drop_first(), key) is None);
}

/// In a schema object whose only member is `kw[0]`, each other keyword is absent.
proof fn lemma_only_member(kw: Seq<(String, Json)>)
    requires
        kw.len() == 1,
    ensures
        forall|key: Seq<char>| key != kw[0].0@ ==> #[trigger] lookup(kw, key) is None,
        lookup(kw, kw[0].0@) == Some(kw[0].1),
{
    assert forall|key: Seq<char>| key != kw[0].0@ implies #[trigger] lookup(kw, key) is None by {
        lemma_sole_lookup(kw, key);
    }
    lemma_sole_lookup(kw, kw[0].0@);
}

proof fn lemma_members_quiet(
    root: Json,
    kw: Seq<(String, Json)>,
    members: Seq<(String, Json)>,
    path: Seq<char>,
    f: nat,
    n: int,
)
    requires
        lookup(kw, "properties"@) is None,
        lookup(kw, "additionalProperties"@) is None,
    ensures
        members_findings(root, kw, members, path, f, n) == Seq::<Finding>::empty(),
    decreases n,
{
    if n > 0 && n <= members.len() {
        lemma_members_quiet(root, kw, members, path, f, n - 1);
        assert(member_findings(root, kw, members[n - 1].0@, members[n - 1].1, path, f) == Seq::<Finding>::empty());
        assert(members_findings(root, kw, members, path, f, n) =~= Seq::<Finding>::empty());
    }
}

/// What a schema object holding one keyword reports comes from that keyword
/// alone: every group of keywords it is not in reports nothing.
proof fn lemma_sole_keyword(root: Json, kw: Seq<(String, Json)>, inst: Json, path: Seq<char>, f: nat)
    requires
        kw.len() == 1,
    ensures
        keyword_findings(root, kw, inst, path, f) == ref_findings(root, kw, inst, path, f) + type_findings(kw, inst, path)
            + value_findings(kw, inst, path) + object_findings(root, kw, inst, path, f) + array_findings(
            root,
            kw,
            inst,
            path,
            f,
        ) + string_findings(kw, inst, path) + number_findings(kw, inst, path) + composition_findings(
            root,
            kw,
            inst,
            path,
            f,
        ),
        kw[0].0@ != "$ref"@ ==> ref_findings(root, kw, inst, path, f) == Seq::<Finding>::empty(),
        kw[0].0@ != "type"@ ==> type_findings(kw, inst, path) == Seq::<Finding>::empty(),
        kw[0].0@ != "enum"@ && kw[0].0@ != "const"@ ==> value_findings(kw, inst, path) == Seq::<Finding>::empty(),
        kw[0].0@ != "required"@ && kw[0].0@ != "properties"@ && kw[0].0@ != "additionalProperties"@
            ==> object_findings(root, kw, inst, path, f) == Seq::<Finding>::empty(),
        kw[0].0@ != "minItems"@ && kw[0].0@ != "maxItems"@ && kw[0].0@ != "items"@ ==> array_findings(
            root,
            kw,
            inst,
            path,
            f,
        ) == Seq::<Finding>::empty(),
        kw[0].0@ != "minLength"@ && kw[0].0@ != "maxLength"@ ==> string_findings(kw, inst, path)
            == Seq::<Finding>::empty(),
        kw[0].0@ != "minimum"@ && kw[0].0@ != "maximum"@ && kw[0].0@ != "exclusiveMinimum"@ && kw[0].0@
            != "exclusiveMaximum"@ ==> number_findings(kw, inst, path) == Seq::<Finding>::empty(),
        kw[0].0@ != "allOf"@ && kw[0].0@ != "anyOf"@ && kw[0].0@ != "oneOf"@ && kw[0].0@ != "not"@
            ==> composition_findings(root, kw, inst, path, f) == Seq::<Finding>::empty(),
{
    lemma_only_member(kw);
    let name = kw[0].0@;
    if name != "$ref"@ {
        assert(lookup(kw, "$ref"@) is None);
    }
    if name != "enum"@ && name != "const"@ {
        assert(lookup(kw, "enum"@) is None);
        assert(lookup(kw, "const"@) is None);
        assert(value_findings(kw, inst, path) =~= Seq::<Finding>::empty());
    }
    if name != "required"@ && name != "properties"@ && name != "additionalProperties"@ {
        assert(lookup(kw, "required"@) is None);
        assert(lookup(kw, "properties"@) is None);
        assert(lookup(kw, "additionalProperties"@) is None);
        if let Json::Object(m) = inst {
            lemma_members_quiet(root, kw, m@, path, f, m@.len() as int);
            assert(object_findings(root, kw, inst, path, f) =~= Seq::<Finding>::empty());
        }
    }
    if name != "minItems"@ && name != "maxItems"@ && name != "items"@ {
        assert(lookup(kw, "minItems"@) is None);
        assert(lookup(kw, "maxItems"@) is None);
        assert(lookup(kw, "items"@) is None);
        if let Json::Array(v) = inst {
            assert(array_findings(root, kw, inst, path, f) =~= Seq::<Finding>::empty());
        }
    }
    if name != "minLength"@ && name != "maxLength"@ {
        assert(lookup(kw, "minLength"@) is None);
        assert(lookup(kw, "maxLength"@) is None);
        if let Json::Text(t) = inst {
            assert(string_findings(kw, inst, path) =~= Seq::<Finding>::empty());
        }
    }
    if name != "minimum"@ && name != "maximum"@ && name != "exclusiveMinimum"@ && name != "exclusiveMaximum"@ {
        assert(lookup(kw, "minimum"@) is None);
        assert(lookup(kw, "maximum"@) is None);
        assert(lookup(kw, "exclusiveMinimum"@) is None);
        assert(lookup(kw, "exclusiveMaximum"@) is None);
        if let Json::Number(n) = inst {
            assert(number_findings(kw, inst, path) =~= Seq::<Finding>::empty());
        }
    }
    if name != "allOf"@ && name != "anyOf"@ && name != "oneOf"@ && name != "not"@ {
        assert(lookup(kw, "allOf"@) is None);
        assert(lookup(kw, "anyOf"@) is None);
        assert(lookup(kw, "oneOf"@) is None);
        assert(lookup(kw, "not"@) is None);
        assert(all_findings(root, seq![], inst, path, f, 0) =~= Seq::<Finding>::empty());
        assert(composition_findings(root, kw, inst, path, f) =~= Seq::<Finding>::empty());
    }
}

proof fn lemma_matches_any(root: Json, bs: Seq<Json>, inst: Json, path: Seq<char>, f: nat, i: int)
    requires
        0 <= i,
    ensures
        matches_any(root, bs, inst, path, f, i) == exists|k: int|
            i <= k < bs.len() && #[trigger] evaluate(root, bs[k], inst, path, f).len() == 0,
    decreases bs.len() - i,
{
    if i < bs.len() {
        lemma_matches_any(root, bs, inst, path, f, i + 1);
        if evaluate(root, bs[i], inst, path, f).len() == 0 {
            assert(i <= i < bs.len());
        }
    }
}

/// `anyOf` reports exactly when every alternative reports something: one
/// alternative that reports nothing, wherever it stands in the list, is
/// enough, and an empty list asks nothing.
pub proof fn law_any_of(root: Json, schema: Json, list: Vec<Json>, inst: Json, path: Seq<char>, fuel: nat)
    requires
        schema matches Json::Object(kw) && kw@.len() == 1 && kw@[0].0@ == "anyOf"@ && kw@[0].1 == Json::Array(list),
        fuel > 0,
    ensures
        list@.len() == 0 || (exists|k: int|
            0 <= k < list@.len() && #[trigger] evaluate(root, list@[k], inst, path, (fuel - 1) as nat).len() == 0)
            ==> evaluate(root, schema, inst, path, fuel) == Seq::<Finding>::empty(),
        list@.len() > 0 && (forall|k: int|
            0 <= k < list@.len() ==> #[trigger] evaluate(root, list@[k], inst, path, (fuel - 1) as nat).len() > 0)
            ==> evaluate(root, schema, inst, path, fuel) == seq![
            finding("anyOf"@, "matches none of the alternatives"@, path),
        ],
{
    let alts = list@;
    let kw = schema->Object_0@;
    let f = (fuel - 1) as nat;
    lemma_reveal_keywords();
    lemma_only_member(kw);
    lemma_sole_keyword(root, kw, inst, path, f);
    lemma_matches_any(root, alts, inst, path, f, 0);
    assert(lookup(kw, "allOf"@) is None);
    assert(lookup(kw, "oneOf"@) is None);
    assert(lookup(kw, "not"@) is None);
    assert(branches(kw, "anyOf"@) == alts);
    assert(all_findings(root, seq![], inst, path, f, 0) =~= Seq::<Finding>::empty());
    assert(keyword_findings(root, kw, inst, path, f) == composition_findings(root, kw, inst, path, f));
}

proof fn lemma_contains_add(a: Seq<Finding>, b: Seq<Finding>, x: Finding)
    ensures
        (a + b).contains(x) == (a.contains(x) || b.contains(x)),
{
    if a.contains(x) {
        let i = choose|i: int| 0 <= i < a.len() && a[i] == x;
        assert((a + b)[i] == x);
    }
    if b.contains(x) {
        let i = choose|i: int| 0 <= i < b.len() && b[i] == x;
        assert((a + b)[a.len() + i] == x);
    }
    if (a + b).contains(x) {
        let i = choose|i: int| 0 <= i < (a + b).len() && (a + b)[i] == x;
        if i < a.len() {
            assert(a[i] == x);
        } else {
            assert(b[i - a.len()] == x);
        }
    }
}

/// The issue `required` reports for a missing `name`.
pub open spec fn missing(name: Seq<char>, path: Seq<char>) -> Finding {
    finding("required"@, "missing property "@ + name, child(path, name))
}

proof fn lemma_required_findings(reqs: Seq<Json>, members: Seq<(String, Json)>, path: Seq<char>, n: int)
    requires
        0 <= n <= reqs.len(),
    ensures
        forall|k: int|
            0 <= k < n && #[trigger] reqs[k] is Text && lookup(members, reqs[k]->Text_0@) is None
                ==> required_findings(reqs, members, path, n).contains(missing(reqs[k]->Text_0@, path)),
        forall|x: Finding|
            #[trigger] required_findings(reqs, members, path, n).contains(x) ==> exists|k: int|
                0 <= k < n && #[trigger] reqs[k] is Text && lookup(members, reqs[k]->Text_0@) is None && x == missing(
                    reqs[k]->Text_0@,
                    path,
                ),
    decreases n,
{
    if n > 0 {
        lemma_required_findings(reqs, members, path, n - 1);
        let before = required_findings(reqs, members, path, n - 1);
        let last = match reqs[n - 1] {
            Json::Text(name) => if has_key(members, name@) {
                seq![]
            } else {
                seq![missing(name@, path)]
            },
            _ => seq![],
        };
        assert(required_findings(reqs, members, path, n) == before + last);
        assert forall|k: int|
            0 <= k < n && #[trigger] reqs[k] is Text && lookup(members, reqs[k]->Text_0@) is None
                implies required_findings(reqs, members, path, n).contains(missing(reqs[k]->Text_0@, path)) by {
            lemma_contains_add(before, last, missing(reqs[k]->Text_0@, path));
            if k == n - 1 {
                assert(last[0] == missing(reqs[k]->Text_0@, path));
            }
        }
        assert forall|x: Finding| #[trigger] required_findings(reqs, members, path, n).contains(x) implies exists|k: int|
            0 <= k < n && #[trigger] reqs[k] is Text && lookup(members, reqs[k]->Text_0@) is None && x == missing(
                reqs[k]->Text_0@,
                path,
            ) by {
            lemma_contains_add(before, last, x);
            if !before.contains(x) {
                assert(last.contains(x));
                assert(reqs[n - 1] is Text);
            }
        }
    }
}

/// `required` reports every name it lists that the object instance lacks,
/// whatever its place in the list, at that member's location: in a schema
/// object holding any other keywords too.
pub proof fn law_required_reports_every_missing_name(
    root: Json,
    schema: Json,
    list: Vec<Json>,
    members: Vec<(String, Json)>,
    path: Seq<char>,
    fuel: nat,
)
    requires
        schema matches Json::Object(kw) && lookup(kw@, "required"@) == Some(Json::Array(list)),
        fuel > 0,
    ensures
        forall|k: int|
            0 <= k < list@.len() && #[trigger] list@[k] is Text && lookup(members@, list@[k]->Text_0@) is None
                ==> evaluate(root, schema, Json::Object(members), path, fuel).contains(
                missing(list@[k]->Text_0@, path),
            ),
{
    let kw = schema->Object_0@;
    let f = (fuel - 1) as nat;
    let inst = Json::Object(members);
    lemma_required_findings(list@, members@, path, list@.len() as int);
    assert forall|k: int|
        0 <= k < list@.len() && #[trigger] list@[k] is Text && lookup(members@, list@[k]->Text_0@) is None
            implies evaluate(root, schema, inst, path, fuel).contains(missing(list@[k]->Text_0@, path)) by {
        let x = missing(list@[k]->Text_0@, path);
        let req = required_findings(list@, members@, path, list@.len() as int);
        let mem = members_findings(root, kw, members@, path, f, members@.len() as int);
        assert(object_findings(root, kw, inst, path, f) == req + mem);
        lemma_contains_add(req, mem, x);
        let a = ref_findings(root, kw, inst, path, f) + type_findings(kw, inst, path) + value_findings(kw, inst, path);
        let o = object_findings(root, kw, inst, path, f);
        let rest = array_findings(root, kw, inst, path, f) + string_findings(kw, inst, path) + number_findings(
            kw,
            inst,
            path,
        ) + composition_findings(root, kw, inst, path, f);
        lemma_contains_add(a, o, x);
        lemma_contains_add(a + o, rest, x);
        assert(keyword_findings(root, kw, inst, path, f) =~= (a + o) + rest);
    }
}

/// A schema object holding `required` alone reports exactly the names it lists
/// that the object instance lacks, each at that member's location, and
/// nothing of an instance that is not an object.
pub proof fn law_required_alone(
    root: Json,
    schema: Json,
    list: Vec<Json>,
    inst: Json,
    path: Seq<char>,
    fuel: nat,
)
    requires
        schema matches Json::Object(kw) && kw@.len() == 1 && kw@[0].0@ == "required"@ && kw@[0].1 == Json::Array(list),
        fuel > 0,
    ensures
        inst matches Json::Object(members) ==> forall|x: Finding|
            #[trigger] evaluate(root, schema, inst, path, fuel).contains(x) <==> exists|k: int|
                0 <= k < list@.len() && #[trigger] list@[k] is Text && lookup(members@, list@[k]->Text_0@) is None
                    && x == missing(list@[k]->Text_0@, path),
        !(inst is Object) ==> evaluate(root, schema, inst, path, fuel) == Seq::<Finding>::empty(),
{
    let kw = schema->Object_0@;
    let f = (fuel - 1) as nat;
    lemma_reveal_keywords();
    lemma_only_member(kw);
    lemma_sole_keyword(root, kw, inst, path, f);
    assert(lookup(kw, "properties"@) is None);
    assert(lookup(kw, "additionalProperties"@) is None);
    assert(keyword_findings(root, kw, inst, path, f) =~= object_findings(root, kw, inst, path, f));
    if let Json::Object(members) = inst {
        lemma_members_quiet(root, kw, members@, path, f, members@.len() as int);
        lemma_required_findings(list@, members@, path, list@.len() as int);
        assert(object_findings(root, kw, inst, path, f) =~= required_findings(
            list@,
            members@,
            path,
            list@.len() as int,
        ));
    }
}

/// The four numeric bounds, each held alone by a schema object: a number
/// breaks `minimum` exactly when it is below the bound, so a number equal to
/// it passes; `maximum` exactly when above; `exclusiveMinimum` exactly when
/// not above; `exclusiveMaximum` exactly when not below. A broken bound is one
/// issue at the instance location, carrying the keyword as its code; a value
/// that is not a number meets every bound.
pub proof fn law_numeric_bounds(
    root: Json,
    schema: Json,
    name: String,
    bound: Number,
    inst: Json,
    path: Seq<char>,
    fuel: nat,
)
    requires
        schema matches Json::Object(kw) && kw@.len() == 1 && kw@[0].0 == name && kw@[0].1 == Json::Number(bound),
        name@ == "minimum"@ || name@ == "maximum"@ || name@ == "exclusiveMinimum"@ || name@ == "exclusiveMaximum"@,
        fuel > 0,
    ensures
        ({
            let e = evaluate(root, schema, inst, path, fuel);
            match inst {
                Json::Number(n) => {
                    let broken = if name@ == "minimum"@ {
                        n.order < bound.order
                    } else if name@ == "maximum"@ {
                        n.order > bound.order
                    } else if name@ == "exclusiveMinimum"@ {
                        n.order <= bound.order
                    } else {
                        n.order >= bound.order
                    };
                    &&& (e.len() == 0) == !broken
                    &&& broken ==> e.len() == 1 && e[0].code == name@ && e[0].path == Some(issue_path(path))
                },
                _ => e.len() == 0,
            }
        }),
{
    let kw = schema->Object_0@;
    let f = (fuel - 1) as nat;
    lemma_reveal_keywords();
    lemma_only_member(kw);
    lemma_sole_keyword(root, kw, inst, path, f);
    assert(keyword_findings(root, kw, inst, path, f) =~= number_findings(kw, inst, path));
    if let Json::Number(n) = inst {
        assert(order_keyword(kw, name@) == Some(bound.order));
        assert(number_findings(kw, inst, path) == bound_finding(kw, "minimum"@, n.order, n.shown@, true, false, path)
            + bound_finding(kw, "maximum"@, n.order, n.shown@, false, false, path) + bound_finding(
            kw,
            "exclusiveMinimum"@,
            n.order,
            n.shown@,
            true,
            true,
            path,
        ) + bound_finding(kw, "exclusiveMaximum"@, n.order, n.shown@, false, true, path));
        if name@ == "minimum"@ {
            assert(lookup(kw, "maximum"@) is None);
            assert(lookup(kw, "exclusiveMinimum"@) is None);
            assert(lookup(kw, "exclusiveMaximum"@) is None);
        } else if name@ == "maximum"@ {
            assert(lookup(kw, "minimum"@) is None);
            assert(lookup(kw, "exclusiveMinimum"@) is None);
            assert(lookup(kw, "exclusiveMaximum"@) is None);
        } else if name@ == "exclusiveMinimum"@ {
            assert(lookup(kw, "minimum"@) is None);
            assert(lookup(kw, "maximum"@) is None);
            assert(lookup(kw, "exclusiveMaximum"@) is None);
        } else {
            assert(lookup(kw, "minimum"@) is None);
            assert(lookup(kw, "maximum"@) is None);
            assert(lookup(kw, "exclusiveMinimum"@) is None);
        }
    }
}

/// `minLength` and `maxLength`, each held alone by a schema object, count a
/// string's characters: a string breaks `minLength` exactly when it has fewer
/// characters than the bound and `maxLength` exactly when it has more, as one
/// issue at the instance location carrying the keyword as its code. A value
/// that is not a string meets both.
pub proof fn law_length_bounds(
    root: Json,
    schema: Json,
    name: String,
    number: Number,
    bound: u64,
    inst: Json,
    path: Seq<char>,
    fuel: nat,
)
    requires
        schema matches Json::Object(kw) && kw@.len() == 1 && kw@[0].0 == name && kw@[0].1 == Json::Number(number),
        number.kind == NumberKind::PosInt(bound),
        name@ == "minLength"@ || name@ == "maxLength"@,
        fuel > 0,
    ensures
        ({
            let e = evaluate(root, schema, inst, path, fuel);
            match inst {
                Json::Text(t) => {
                    let broken = if name@ == "minLength"@ {
                        t@.len() < bound
                    } else {
                        t@.len() > bound
                    };
                    &&& (e.len() == 0) == !broken
                    &&& broken ==> e.len() == 1 && e[0].code == name@ && e[0].path == Some(issue_path(path))
                },
                _ => e.len() == 0,
            }
        }),
{
    let kw = schema->Object_0@;
    let f = (fuel - 1) as nat;
    lemma_reveal_keywords();
    lemma_only_member(kw);
    lemma_sole_keyword(root, kw, inst, path, f);
    assert(keyword_findings(root, kw, inst, path, f) =~= string_findings(kw, inst, path));
    if let Json::Text(t) = inst {
        assert(u64_keyword(kw, name@) == Some(bound));
        if name@ == "minLength"@ {
            assert(lookup(kw, "maxLength"@) is None);
        } else {
            assert(lookup(kw, "minLength"@) is None);
        }
    }
}

/// The type names, as literals Verus reads.
proof fn lemma_reveal_type_names()
    ensures
        "integer"@.len() == 7,
        "integer"@[0] == 'i',
        "number"@.len() == 6,
        "number"@[0] == 'n',
        "string"@.len() == 6,
        "string"@[0] == 's',
        "null"@.len() == 4,
        "null"@[0] == 'n',
        "boolean"@.len() == 7,
        "boolean"@[0] == 'b',
        "array"@.len() == 5,
        "array"@[0] == 'a',
        "object"@.len() == 6,
        "object"@[0] == 'o',
{
    reveal_strlit("integer");
    reveal_strlit("number");
    reveal_strlit("string");
    reveal_strlit("null");
    reveal_strlit("boolean");
    reveal_strlit("array");
    reveal_strlit("object");
}

/// The values a type name admits: `integer` the numbers stored as integers,
/// negative or not, and the floats without a fraction; `number` every number;
/// `string`, `null`, `boolean`, `array` and `object` the values of that kind;
/// any other name nothing.
pub open spec fn kind_admits(t: Seq<char>, inst: Json) -> bool {
    if t == "integer"@ {
        inst matches Json::Number(n) && (n.kind is PosInt || n.kind is NegInt || n.kind == NumberKind::Float {
            whole: true,
        })
    } else if t == "number"@ {
        inst is Number
    } else if t == "string"@ {
        inst is Text
    } else if t == "null"@ {
        inst is Null
    } else if t == "boolean"@ {
        inst is Bool
    } else if t == "array"@ {
        inst is Array
    } else if t == "object"@ {
        inst is Object
    } else {
        false
    }
}

proof fn lemma_has_type(inst: Json, t: Seq<char>)
    ensures
        has_type(inst, t) == kind_admits(t, inst),
{
    lemma_reveal_type_names();
}

/// `type` holding one name, alone in a schema object: `integer` admits
/// exactly the numbers stored as integers, negative or not, and the floats
/// without a fraction; `number` admits every number; `string`, `null`,
/// `boolean`, `array` and `object` admit exactly the values of that kind; any
/// other name admits nothing. What it does not admit is one issue at the
/// instance location, with code `type`.
pub proof fn law_type_name(
    root: Json,
    schema: Json,
    wanted: String,
    inst: Json,
    path: Seq<char>,
    fuel: nat,
)
    requires
        schema matches Json::Object(kw) && kw@.len() == 1 && kw@[0].0@ == "type"@ && kw@[0].1 == Json::Text(wanted),
        fuel > 0,
    ensures
        ({
            let e = evaluate(root, schema, inst, path, fuel);
            let t = wanted@;
            let admitted = kind_admits(t, inst);
            &&& (e.len() == 0) == admitted
            &&& !admitted ==> e.len() == 1 && e[0].code == "type"@ && e[0].path == Some(issue_path(path))
        }),
{
    let kw = schema->Object_0@;
    let f = (fuel - 1) as nat;
    lemma_reveal_keywords();
    lemma_reveal_type_names();
    lemma_only_member(kw);
    lemma_sole_keyword(root, kw, inst, path, f);
    assert(keyword_findings(root, kw, inst, path, f) =~= type_findings(kw, inst, path));
    let a = seq![wanted@];
    assert(allowed_types(Json::Text(wanted)) == Some(a));
    lemma_has_type(inst, wanted@);
    if has_type(inst, wanted@) {
        assert(has_type(inst, a[0]));
    }
    assert((exists|i: int| 0 <= i < a.len() && #[trigger] has_type(inst, a[i])) == has_type(inst, wanted@));
}

/// `not`, alone in a schema object, reports exactly when the schema it holds
/// reports nothing: one issue at the instance location, with code `not`.
pub proof fn law_not(root: Json, schema: Json, inner: Json, inst: Json, path: Seq<char>, fuel: nat)
    requires
        schema matches Json::Object(kw) && kw@.len() == 1 && kw@[0].0@ == "not"@ && kw@[0].1 == inner,
        fuel > 0,
    ensures
        evaluate(root, inner, inst, path, (fuel - 1) as nat).len() > 0 ==> evaluate(root, schema, inst, path, fuel)
            == Seq::<Finding>::empty(),
        evaluate(root, inner, inst, path, (fuel - 1) as nat).len() == 0 ==> evaluate(root, schema, inst, path, fuel)
            == seq![finding("not"@, "matches a schema it must not"@, path)],
{
    let kw = schema->Object_0@;
    let f = (fuel - 1) as nat;
    lemma_reveal_keywords();
    lemma_only_member(kw);
    lemma_sole_keyword(root, kw, inst, path, f);
    assert(lookup(kw, "allOf"@) is None);
    assert(lookup(kw, "anyOf"@) is None);
    assert(lookup(kw, "oneOf"@) is None);
    assert(all_findings(root, seq![], inst, path, f, 0) =~= Seq::<Finding>::empty());
    assert(keyword_findings(root, kw, inst, path, f) == composition_findings(root, kw, inst, path, f));
}

/// Alternative `k` of `alts` reports nothing.
pub open spec fn passes(root: Json, alts: Seq<Json>, inst: Json, path: Seq<char>, f: nat, k: int) -> bool {
    evaluate(root, alts[k], inst, path, f).len() == 0
}

proof fn lemma_match_count(root: Json, bs: Seq<Json>, inst: Json, path: Seq<char>, f: nat, n: int)
    requires
        0 <= n <= bs.len(),
    ensures
        (match_count(root, bs, inst, path, f, n) == 0) == (forall|k: int|
            0 <= k < n ==> !#[trigger] passes(root, bs, inst, path, f, k)),
        (match_count(root, bs, inst, path, f, n) == 1) == (exists|k: int|
            0 <= k < n && #[trigger] passes(root, bs, inst, path, f, k) && forall|j: int|
                0 <= j < n && j != k ==> !#[trigger] passes(root, bs, inst, path, f, j)),
    decreases n,
{
    if n > 0 {
        lemma_match_count(root, bs, inst, path, f, n - 1);
        let last = passes(root, bs, inst, path, f, n - 1);
        if match_count(root, bs, inst, path, f, n) == 1 {
            if last {
                assert(passes(root, bs, inst, path, f, n - 1));
                assert forall|j: int| 0 <= j < n && j != n - 1 implies !#[trigger] passes(root, bs, inst, path, f, j) by {
                    assert(0 <= j < n - 1);
                }
            } else {
                let k = choose|k: int|
                    0 <= k < n - 1 && #[trigger] passes(root, bs, inst, path, f, k) && forall|j: int|
                        0 <= j < n - 1 && j != k ==> !#[trigger] passes(root, bs, inst, path, f, j);
                assert forall|j: int| 0 <= j < n && j != k implies !#[trigger] passes(root, bs, inst, path, f, j) by {
                    if j < n - 1 {
                    }
                }
            }
        }
        if exists|k: int|
            0 <= k < n && #[trigger] passes(root, bs, inst, path, f, k) && forall|j: int|
                0 <= j < n && j != k ==> !#[trigger] passes(root, bs, inst, path, f, j) {
            let k = choose|k: int|
                0 <= k < n && #[trigger] passes(root, bs, inst, path, f, k) && forall|j: int|
                    0 <= j < n && j != k ==> !#[trigger] passes(root, bs, inst, path, f, j);
            if k == n - 1 {
                assert forall|j: int| 0 <= j < n - 1 implies !#[trigger] passes(root, bs, inst, path, f, j) by {
                    assert(j != k);
                }
            } else {
                assert(!passes(root, bs, inst, path, f, n - 1));
                assert forall|j: int| 0 <= j < n - 1 && j != k implies !#[trigger] passes(root, bs, inst, path, f, j) by {
                }
            }
        }
        if forall|k: int| 0 <= k < n ==> !#[trigger] passes(root, bs, inst, path, f, k) {
            assert(!passes(root, bs, inst, path, f, n - 1));
        }
        if match_count(root, bs, inst, path, f, n) == 0 {
            assert(!last);
        }
    }
}

/// `oneOf`, alone in a schema object, reports exactly when the number of its
/// alternatives that report nothing is other than one: one issue at the
/// instance location, with code `oneOf`. An empty list asks nothing.
pub proof fn law_one_of(root: Json, schema: Json, list: Vec<Json>, inst: Json, path: Seq<char>, fuel: nat)
    requires
        schema matches Json::Object(kw) && kw@.len() == 1 && kw@[0].0@ == "oneOf"@ && kw@[0].1 == Json::Array(list),
        fuel > 0,
    ensures
        ({
            let e = evaluate(root, schema, inst, path, fuel);
            let alts = list@;
            let exactly_one = exists|k: int|
                0 <= k < alts.len() && #[trigger] passes(root, alts, inst, path, (fuel - 1) as nat, k) && forall|j: int|
                    0 <= j < alts.len() && j != k ==> !#[trigger] passes(root, alts, inst, path, (fuel - 1) as nat, j);
            &&& (e.len() == 0) == (alts.len() == 0 || exactly_one)
            &&& e.len() > 0 ==> e.len() == 1 && e[0].code == "oneOf"@ && e[0].path == Some(issue_path(path))
        }),
{
    let kw = schema->Object_0@;
    let f = (fuel - 1) as nat;
    lemma_reveal_keywords();
    lemma_only_member(kw);
    lemma_sole_keyword(root, kw, inst, path, f);
    assert(lookup(kw, "allOf"@) is None);
    assert(lookup(kw, "anyOf"@) is None);
    assert(lookup(kw, "not"@) is None);
    assert(branches(kw, "oneOf"@) == list@);
    lemma_match_count(root, list@, inst, path, f, list@.len() as int);
    assert(all_findings(root, seq![], inst, path, f, 0) =~= Seq::<Finding>::empty());
    assert(keyword_findings(root, kw, inst, path, f) == composition_findings(root, kw, inst, path, f));
}

/// `const`, alone in a schema object, reports exactly when the instance is
/// not equal to its value as JSON values: one issue with code `const`.
pub proof fn law_const(root: Json, schema: Json, expected: Json, inst: Json, path: Seq<char>, fuel: nat)
    requires
        schema matches Json::Object(kw) && kw@.len() == 1 && kw@[0].0@ == "const"@ && kw@[0].1 == expected,
        fuel > 0,
    ensures
        ({
            let e = evaluate(root, schema, inst, path, fuel);
            &&& (e.len() == 0) == same_value(expected, inst)
            &&& e.len() > 0 ==> e.len() == 1 && e[0].code == "const"@ && e[0].path == Some(issue_path(path))
        }),
{
    let kw = schema->Object_0@;
    let f = (fuel - 1) as nat;
    lemma_reveal_keywords();
    lemma_only_member(kw);
    lemma_sole_keyword(root, kw, inst, path, f);
    assert(lookup(kw, "enum"@) is None);
    assert(keyword_findings(root, kw, inst, path, f) =~= value_findings(kw, inst, path));
}

/// `enum`, alone in a schema object, reports exactly when the instance equals
/// none of its values, wherever they stand: one issue with code `enum`.
pub proof fn law_enum(root: Json, schema: Json, list: Vec<Json>, inst: Json, path: Seq<char>, fuel: nat)
    requires
        schema matches Json::Object(kw) && kw@.len() == 1 && kw@[0].0@ == "enum"@ && kw@[0].1 == Json::Array(list),
        fuel > 0,
    ensures
        ({
            let e = evaluate(root, schema, inst, path, fuel);
            &&& (e.len() == 0) == exists|k: int| 0 <= k < list@.len() && #[trigger] same_value(list@[k], inst)
            &&& e.len() > 0 ==> e.len() == 1 && e[0].code == "enum"@ && e[0].path == Some(issue_path(path))
        }),
{
    let kw = schema->Object_0@;
    let f = (fuel - 1) as nat;
    lemma_reveal_keywords();
    lemma_only_member(kw);
    lemma_sole_keyword(root, kw, inst, path, f);
    assert(lookup(kw, "const"@) is None);
    assert(keyword_findings(root, kw, inst, path, f) =~= value_findings(kw, inst, path));
}

proof fn lemma_all_findings(root: Json, bs: Seq<Json>, inst: Json, path: Seq<char>, f: nat, n: int)
    requires
        0 <= n <= bs.len(),
    ensures
        forall|k: int, x: Finding|
            0 <= k < n && #[trigger] evaluate(root, bs[k], inst, path, f).contains(x) ==> all_findings(
                root,
                bs,
                inst,
                path,
                f,
                n,
            ).contains(x),
        forall|x: Finding|
            #[trigger] all_findings(root, bs, inst, path, f, n).contains(x) ==> exists|k: int|
                0 <= k < n && #[trigger] evaluate(root, bs[k], inst, path, f).contains(x),
    decreases n,
{
    if n > 0 {
        lemma_all_findings(root, bs, inst, path, f, n - 1);
        let before = all_findings(root, bs, inst, path, f, n - 1);
        let last = evaluate(root, bs[n - 1], inst, path, f);
        assert forall|k: int, x: Finding|
            0 <= k < n && #[trigger] evaluate(root, bs[k], inst, path, f).contains(x) implies all_findings(
                root,
                bs,
                inst,
                path,
                f,
                n,
            ).contains(x) by {
            lemma_contains_add(before, last, x);
        }
        assert forall|x: Finding| #[trigger] all_findings(root, bs, inst, path, f, n).contains(x) implies exists|k: int|
            0 <= k < n && #[trigger] evaluate(root, bs[k], inst, path, f).contains(x) by {
            lemma_contains_add(before, last, x);
        }
    }
}

/// `allOf`, alone in a schema object, reports what its schemas report, all of
/// them: every issue of every schema it holds, and nothing else.
pub proof fn law_all_of(root: Json, schema: Json, list: Vec<Json>, inst: Json, path: Seq<char>, fuel: nat)
    requires
        schema matches Json::Object(kw) && kw@.len() == 1 && kw@[0].0@ == "allOf"@ && kw@[0].1 == Json::Array(list),
        fuel > 0,
    ensures
        forall|x: Finding|
            #[trigger] evaluate(root, schema, inst, path, fuel).contains(x) <==> exists|k: int|
                0 <= k < list@.len() && #[trigger] evaluate(root, list@[k], inst, path, (fuel - 1) as nat).contains(x),
{
    let kw = schema->Object_0@;
    let f = (fuel - 1) as nat;
    lemma_reveal_keywords();
    lemma_only_member(kw);
    lemma_sole_keyword(root, kw, inst, path, f);
    assert(lookup(kw, "anyOf"@) is None);
    assert(lookup(kw, "oneOf"@) is None);
    assert(lookup(kw, "not"@) is None);
    assert(branches(kw, "allOf"@) == list@);
    lemma_all_findings(root, list@, inst, path, f, list@.len() as int);
    assert(match_count(root, seq![], inst, path, f, 0) == 0);
    assert(composition_findings(root, kw, inst, path, f) =~= all_findings(
        root,
        list@,
        inst,
        path,
        f,
        list@.len() as int,
    ));
    assert(keyword_findings(root, kw, inst, path, f) == composition_findings(root, kw, inst, path, f));
}

/// `minItems` and `maxItems`, each held alone by a schema object, count an
/// array's elements: an array breaks `minItems` exactly when it has fewer
/// elements than the bound and `maxItems` exactly when it has more, as one
/// issue at the instance location carrying the keyword as its code. A value
/// that is not an array meets both.
pub proof fn law_item_count_bounds(
    root: Json,
    schema: Json,
    name: String,
    number: Number,
    bound: u64,
    inst: Json,
    path: Seq<char>,
    fuel: nat,
)
    requires
        schema matches Json::Object(kw) && kw@.len() == 1 && kw@[0].0 == name && kw@[0].1 == Json::Number(number),
        number.kind == NumberKind::PosInt(bound),
        name@ == "minItems"@ || name@ == "maxItems"@,
        fuel > 0,
    ensures
        ({
            let e = evaluate(root, schema, inst, path, fuel);
            match inst {
                Json::Array(v) => {
                    let broken = if name@ == "minItems"@ {
                        v@.len() < bound
                    } else {
                        v@.len() > bound
                    };
                    &&& (e.len() == 0) == !broken
                    &&& broken ==> e.len() == 1 && e[0].code == name@ && e[0].path == Some(issue_path(path))
                },
                _ => e.len() == 0,
            }
        }),
{
    let kw = schema->Object_0@;
    let f = (fuel - 1) as nat;
    lemma_reveal_keywords();
    lemma_only_member(kw);
    lemma_sole_keyword(root, kw, inst, path, f);
    assert(keyword_findings(root, kw, inst, path, f) =~= array_findings(root, kw, inst, path, f));
    assert(lookup(kw, "items"@) is None);
    if let Json::Array(v) = inst {
        assert(u64_keyword(kw, name@) == Some(bound));
        if name@ == "minItems"@ {
            assert(lookup(kw, "maxItems"@) is None);
        } else {
            assert(lookup(kw, "minItems"@) is None);
        }
        assert(array_findings(root, kw, inst, path, f) =~= size_findings(
            kw,
            v@.len(),
            path,
            "minItems"@,
            "maxItems"@,
            "has "@,
            " items"@,
        ));
    }
}

proof fn lemma_items_findings(root: Json, sub: Json, items: Seq<Json>, path: Seq<char>, f: nat, n: int)
    requires
        0 <= n <= items.len(),
    ensures
        forall|k: int, x: Finding|
            0 <= k < n && #[trigger] evaluate(root, sub, items[k], child(path, decimal(k as nat)), f).contains(x)
                ==> items_findings(root, sub, items, path, f, n).contains(x),
        forall|x: Finding|
            #[trigger] items_findings(root, sub, items, path, f, n).contains(x) ==> exists|k: int|
                0 <= k < n && #[trigger] evaluate(root, sub, items[k], child(path, decimal(k as nat)), f).contains(x),
    decreases n,
{
    if n > 0 {
        lemma_items_findings(root, sub, items, path, f, n - 1);
        let before = items_findings(root, sub, items, path, f, n - 1);
        let last = evaluate(root, sub, items[n - 1], child(path, decimal((n - 1) as nat)), f);
        assert forall|k: int, x: Finding|
            0 <= k < n && #[trigger] evaluate(root, sub, items[k], child(path, decimal(k as nat)), f).contains(x)
                implies items_findings(root, sub, items, path, f, n).contains(x) by {
            lemma_contains_add(before, last, x);
        }
        assert forall|x: Finding| #[trigger] items_findings(root, sub, items, path, f, n).contains(x) implies exists|
            k: int,
        | 0 <= k < n && #[trigger] evaluate(root, sub, items[k], child(path, decimal(k as nat)), f).contains(x) by {
            lemma_contains_add(before, last, x);
        }
    }
}

/// `items`, alone in a schema object, holds every element of an array to its
/// schema, each at its own location (the array's location and the element's
/// index): it reports every issue of every element, and nothing else.
pub proof fn law_items(root: Json, schema: Json, sub: Json, elements: Vec<Json>, path: Seq<char>, fuel: nat)
    requires
        schema matches Json::Object(kw) && kw@.len() == 1 && kw@[0].0@ == "items"@ && kw@[0].1 == sub,
        fuel > 0,
    ensures
        forall|x: Finding|
            #[trigger] evaluate(root, schema, Json::Array(elements), path, fuel).contains(x) <==> exists|k: int|
                0 <= k < elements@.len() && #[trigger] evaluate(
                    root,
                    sub,
                    elements@[k],
                    child(path, decimal(k as nat)),
                    (fuel - 1) as nat,
                ).contains(x),
{
    let kw = schema->Object_0@;
    let f = (fuel - 1) as nat;
    let inst = Json::Array(elements);
    lemma_reveal_keywords();
    lemma_only_member(kw);
    lemma_sole_keyword(root, kw, inst, path, f);
    assert(lookup(kw, "minItems"@) is None);
    assert(lookup(kw, "maxItems"@) is None);
    lemma_items_findings(root, sub, elements@, path, f, elements@.len() as int);
    assert(array_findings(root, kw, inst, path, f) =~= items_findings(
        root,
        sub,
        elements@,
        path,
        f,
        elements@.len() as int,
    ));
    assert(keyword_findings(root, kw, inst, path, f) =~= array_findings(root, kw, inst, path, f));
}

proof fn lemma_members_findings(
    root: Json,
    kw: Seq<(String, Json)>,
    members: Seq<(String, Json)>,
    path: Seq<char>,
    f: nat,
    n: int,
)
    requires
        0 <= n <= members.len(),
    ensures
        forall|x: Finding|
            #[trigger] members_findings(root, kw, members, path, f, n).contains(x) <==> exists|k: int|
                0 <= k < n && #[trigger] member_findings(root, kw, members[k].0@, members[k].1, path, f).contains(x),
    decreases n,
{
    if n > 0 {
        lemma_members_findings(root, kw, members, path, f, n - 1);
        let before = members_findings(root, kw, members, path, f, n - 1);
        let last = member_findings(root, kw, members[n - 1].0@, members[n - 1].1, path, f);
        assert forall|x: Finding| #[trigger] members_findings(root, kw, members, path, f, n).contains(x) <==> exists|
            k: int,
        | 0 <= k < n && #[trigger] member_findings(root, kw, members[k].0@, members[k].1, path, f).contains(x) by {
            lemma_contains_add(before, last, x);
            if exists|k: int|
                0 <= k < n && #[trigger] member_findings(root, kw, members[k].0@, members[k].1, path, f).contains(x) {
                let k = choose|k: int|
                    0 <= k < n && #[trigger] member_findings(root, kw, members[k].0@, members[k].1, path, f).contains(x);
                if k < n - 1 {
                    assert(before.contains(x));
                }
            }
        }
    }
}

/// `properties`, alone in a schema object, holds each member of an object
/// instance that it declares to the declared schema, at the member's own
/// location, and leaves the others alone: it reports every issue of every
/// declared member, and nothing else.
pub proof fn law_properties(
    root: Json,
    schema: Json,
    declared_members: Vec<(String, Json)>,
    members: Vec<(String, Json)>,
    path: Seq<char>,
    fuel: nat,
)
    requires
        schema matches Json::Object(kw) && kw@.len() == 1 && kw@[0].0@ == "properties"@ && kw@[0].1 == Json::Object(
            declared_members,
        ),
        fuel > 0,
    ensures
        forall|x: Finding|
            #[trigger] evaluate(root, schema, Json::Object(members), path, fuel).contains(x) <==> exists|k: int|
                0 <= k < members@.len() && #[trigger] lookup(declared_members@, members@[k].0@) is Some && evaluate(
                    root,
                    lookup(declared_members@, members@[k].0@)->Some_0,
                    members@[k].1,
                    child(path, members@[k].0@),
                    (fuel - 1) as nat,
                ).contains(x),
{
    let kw = schema->Object_0@;
    let f = (fuel - 1) as nat;
    let inst = Json::Object(members);
    lemma_reveal_keywords();
    lemma_only_member(kw);
    lemma_sole_keyword(root, kw, inst, path, f);
    assert(lookup(kw, "required"@) is None);
    assert(lookup(kw, "additionalProperties"@) is None);
    lemma_members_findings(root, kw, members@, path, f, members@.len() as int);
    assert(object_findings(root, kw, inst, path, f) =~= members_findings(
        root,
        kw,
        members@,
        path,
        f,
        members@.len() as int,
    ));
    assert(keyword_findings(root, kw, inst, path, f) =~= object_findings(root, kw, inst, path, f));
    assert(properties_of(kw) == Some(declared_members@));
    let e = evaluate(root, schema, inst, path, fuel);
    assert forall|x: Finding| #[trigger] e.contains(x) <==> exists|k: int|
        0 <= k < members@.len() && #[trigger] lookup(declared_members@, members@[k].0@) is Some && evaluate(
            root,
            lookup(declared_members@, members@[k].0@)->Some_0,
            members@[k].1,
            child(path, members@[k].0@),
            f,
        ).contains(x) by {
        if e.contains(x) {
            let k = choose|k: int|
                0 <= k < members@.len() && #[trigger] member_findings(
                    root,
                    kw,
                    members@[k].0@,
                    members@[k].1,
                    path,
                    f,
                ).contains(x);
            assert(lookup(declared_members@, members@[k].0@) is Some);
        }
        if exists|k: int|
            0 <= k < members@.len() && #[trigger] lookup(declared_members@, members@[k].0@) is Some && evaluate(
                root,
                lookup(declared_members@, members@[k].0@)->Some_0,
                members@[k].1,
                child(path, members@[k].0@),
                f,
            ).contains(x) {
            let k = choose|k: int|
                0 <= k < members@.len() && #[trigger] lookup(declared_members@, members@[k].0@) is Some && evaluate(
                    root,
                    lookup(declared_members@, members@[k].0@)->Some_0,
                    members@[k].1,
                    child(path, members@[k].0@),
                    f,
                ).contains(x);
            assert(member_findings(root, kw, members@[k].0@, members@[k].1, path, f).contains(x));
        }
    }
}

/// `additionalProperties`, alone in a schema object, declares no member, so
/// it applies to every member of an object instance: `false` reports each of
/// them at its own location; a schema holds each of them to it there,
/// reporting every issue of every member and nothing else; anything else
/// asks nothing.
pub proof fn law_additional_properties(
    root: Json,
    schema: Json,
    extra: Json,
    members: Vec<(String, Json)>,
    path: Seq<char>,
    fuel: nat,
)
    requires
        schema matches Json::Object(kw) && kw@.len() == 1 && kw@[0].0@ == "additionalProperties"@ && kw@[0].1 == extra,
        fuel > 0,
    ensures
        extra == Json::Bool(false) ==> forall|x: Finding|
            #[trigger] evaluate(root, schema, Json::Object(members), path, fuel).contains(x) <==> exists|k: int|
                0 <= k < members@.len() && x == finding(
                    "additionalProperties"@,
                    "is not a declared property"@,
                    child(path, #[trigger] members@[k].0@),
                ),
        extra is Object ==> forall|x: Finding|
            #[trigger] evaluate(root, schema, Json::Object(members), path, fuel).contains(x) <==> exists|k: int|
                0 <= k < members@.len() && #[trigger] evaluate(
                    root,
                    extra,
                    members@[k].1,
                    child(path, members@[k].0@),
                    (fuel - 1) as nat,
                ).contains(x),
        extra != Json::Bool(false) && !(extra is Object) ==> evaluate(root, schema, Json::Object(members), path, fuel)
            == Seq::<Finding>::empty(),
{
    let kw = schema->Object_0@;
    let f = (fuel - 1) as nat;
    let inst = Json::Object(members);
    lemma_reveal_keywords();
    lemma_only_member(kw);
    lemma_sole_keyword(root, kw, inst, path, f);
    assert(lookup(kw, "required"@) is None);
    assert(lookup(kw, "properties"@) is None);
    lemma_members_findings(root, kw, members@, path, f, members@.len() as int);
    assert(object_findings(root, kw, inst, path, f) =~= members_findings(
        root,
        kw,
        members@,
        path,
        f,
        members@.len() as int,
    ));
    assert(keyword_findings(root, kw, inst, path, f) =~= object_findings(root, kw, inst, path, f));
    let e = evaluate(root, schema, inst, path, fuel);
    if extra == Json::Bool(false) {
        assert forall|x: Finding| #[trigger] e.contains(x) <==> exists|k: int|
            0 <= k < members@.len() && x == finding(
                "additionalProperties"@,
                "is not a declared property"@,
                child(path, #[trigger] members@[k].0@),
            ) by {
            if exists|k: int|
                0 <= k < members@.len() && x == finding(
                    "additionalProperties"@,
                    "is not a declared property"@,
                    child(path, #[trigger] members@[k].0@),
                ) {
                let k = choose|k: int|
                    0 <= k < members@.len() && x == finding(
                        "additionalProperties"@,
                        "is not a declared property"@,
                        child(path, #[trigger] members@[k].0@),
                    );
                let m = member_findings(root, kw, members@[k].0@, members@[k].1, path, f);
                assert(m[0] == x);
                assert(m.contains(x));
            }
            if e.contains(x) {
                let k = choose|k: int|
                    0 <= k < members@.len() && #[trigger] member_findings(
                        root,
                        kw,
                        members@[k].0@,
                        members@[k].1,
                        path,
                        f,
                    ).contains(x);
                let m = member_findings(root, kw, members@[k].0@, members@[k].1, path, f);
                assert(m.len() == 1);
                assert(x == m[0]);
            }
        }
    } else if extra is Object {
        assert forall|x: Finding| #[trigger] e.contains(x) <==> exists|k: int|
            0 <= k < members@.len() && #[trigger] evaluate(
                root,
                extra,
                members@[k].1,
                child(path, members@[k].0@),
                f,
            ).contains(x) by {
            if e.contains(x) {
                let k = choose|k: int|
                    0 <= k < members@.len() && #[trigger] member_findings(
                        root,
                        kw,
                        members@[k].0@,
                        members@[k].1,
                        path,
                        f,
                    ).contains(x);
                assert(evaluate(root, extra, members@[k].1, child(path, members@[k].0@), f).contains(x));
            }
            if exists|k: int|
                0 <= k < members@.len() && #[trigger] evaluate(
                    root,
                    extra,
                    members@[k].1,
                    child(path, members@[k].0@),
                    f,
                ).contains(x) {
                let k = choose|k: int|
                    0 <= k < members@.len() && #[trigger] evaluate(
                        root,
                        extra,
                        members@[k].1,
                        child(path, members@[k].0@),
                        f,
                    ).contains(x);
                assert(member_findings(root, kw, members@[k].0@, members@[k].1, path, f).contains(x));
            }
        }
    } else if !(extra is Object) {
        lemma_members_quiet_other(root, kw, members@, path, f, members@.len() as int);
        assert(object_findings(root, kw, inst, path, f) =~= Seq::<Finding>::empty());
    }
}

proof fn lemma_members_quiet_other(
    root: Json,
    kw: Seq<(String, Json)>,
    members: Seq<(String, Json)>,
    path: Seq<char>,
    f: nat,
    n: int,
)
    requires
        lookup(kw, "properties"@) is None,
        lookup(kw, "additionalProperties"@) matches Some(a) && a != Json::Bool(false) && !(a is Object),
    ensures
        members_findings(root, kw, members, path, f, n) == Seq::<Finding>::empty(),
    decreases n,
{
    if n > 0 && n <= members.len() {
        lemma_members_quiet_other(root, kw, members, path, f, n - 1);
        assert(member_findings(root, kw, members[n - 1].0@, members[n - 1].1, path, f) == Seq::<Finding>::empty());
        assert(members_findings(root, kw, members, path, f, n) =~= Seq::<Finding>::empty());
    }
}

proof fn lemma_texts_of(v: Seq<Json>, inst: Json)
    ensures
        (exists|i: int| 0 <= i < texts_of(v).len() && #[trigger] has_type(inst, texts_of(v)[i])) == (exists|k: int|
            0 <= k < v.len() && #[trigger] v[k] is Text && kind_admits(v[k]->Text_0@, inst)),
    decreases v.len(),
{
    if v.len() > 0 {
        let init = v.drop_last();
        lemma_texts_of(init, inst);
        let rest = texts_of(init);
        let t = texts_of(v);
        assert forall|k: int| 0 <= k < init.len() implies #[trigger] init[k] == v[k] by {}
        if exists|k: int| 0 <= k < v.len() && #[trigger] v[k] is Text && kind_admits(v[k]->Text_0@, inst) {
            let k = choose|k: int| 0 <= k < v.len() && #[trigger] v[k] is Text && kind_admits(v[k]->Text_0@, inst);
            lemma_has_type(inst, v[k]->Text_0@);
            if k == v.len() - 1 {
                assert(t[t.len() - 1] == v[k]->Text_0@);
                assert(has_type(inst, t[t.len() - 1]));
            } else {
                assert(init[k] is Text && kind_admits(init[k]->Text_0@, inst));
                let i = choose|i: int| 0 <= i < rest.len() && #[trigger] has_type(inst, rest[i]);
                assert(t[i] == rest[i]);
            }
        }
        if exists|i: int| 0 <= i < t.len() && #[trigger] has_type(inst, t[i]) {
            let i = choose|i: int| 0 <= i < t.len() && #[trigger] has_type(inst, t[i]);
            lemma_has_type(inst, t[i]);
            if i < rest.len() {
                assert(t[i] == rest[i]);
                assert(has_type(inst, rest[i]));
                let k = choose|k: int| 0 <= k < init.len() && #[trigger] init[k] is Text && kind_admits(init[k]->Text_0@, inst);
                assert(v[k] == init[k]);
            } else {
                assert(v.last() is Text);
                assert(v[v.len() - 1] is Text && kind_admits(v[v.len() - 1]->Text_0@, inst));
            }
        }
    }
}

/// `type` holding a list, alone in a schema object, admits what any of the
/// names in the list admits, wherever it stands; entries that are not strings
/// are passed over. What it does not admit is one issue at the instance
/// location, with code `type`.
pub proof fn law_type_list(root: Json, schema: Json, list: Vec<Json>, inst: Json, path: Seq<char>, fuel: nat)
    requires
        schema matches Json::Object(kw) && kw@.len() == 1 && kw@[0].0@ == "type"@ && kw@[0].1 == Json::Array(list),
        fuel > 0,
    ensures
        ({
            let e = evaluate(root, schema, inst, path, fuel);
            let admitted = exists|k: int|
                0 <= k < list@.len() && #[trigger] list@[k] is Text && kind_admits(list@[k]->Text_0@, inst);
            &&& (e.len() == 0) == admitted
            &&& !admitted ==> e.len() == 1 && e[0].code == "type"@ && e[0].path == Some(issue_path(path))
        }),
{
    let kw = schema->Object_0@;
    let f = (fuel - 1) as nat;
    lemma_reveal_keywords();
    lemma_only_member(kw);
    lemma_sole_keyword(root, kw, inst, path, f);
    assert(keyword_findings(root, kw, inst, path, f) =~= type_findings(kw, inst, path));
    lemma_texts_of(list@, inst);
}

} // verus!
