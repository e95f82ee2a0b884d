use serde_json::Value;
use xmip_core_contract_json_schema::contract::ValidationIssue;
use xmip_core_contract_json_schema::json::{Json, Number, NumberKind};
use xmip_core_contract_json_schema::schema::{check, check_within, child_path, resolve_ref};

fn order_key(f: f64) -> i64 {
    let bits = f.to_bits() as i64;
    if bits < 0 {
        -(bits & i64::MAX)
    } else {
        bits
    }
}

fn number_of(n: &serde_json::Number) -> Number {
    let f = n.as_f64().expect("finite");
    let kind = if let Some(u) = n.as_u64() {
        NumberKind::PosInt(u)
    } else if let Some(i) = n.as_i64() {
        NumberKind::NegInt(i)
    } else {
        NumberKind::Float { whole: f.fract() == 0.0 }
    };
    Number { kind, order: order_key(f), shown: format!("{f}"), text: n.to_string() }
}

fn to_json(v: &Value) -> Json {
    match v {
        Value::Null => Json::Null,
        Value::Bool(b) => Json::Bool(*b),
        Value::Number(n) => Json::Number(number_of(n)),
        Value::String(s) => Json::Text(s.clone()),
        Value::Array(a) => Json::Array(a.iter().map(to_json).collect()),
        Value::Object(m) => Json::Object(m.iter().map(|(k, v)| (k.clone(), to_json(v))).collect()),
    }
}

fn json(text: &str) -> Json {
    to_json(&serde_json::from_str::<Value>(text).expect("test JSON"))
}

fn issues(schema: &Json, instance: &Json) -> Vec<ValidationIssue> {
    check(schema, schema, instance, "")
}

fn codes(schema: &Json, instance: &Json) -> Vec<String> {
    issues(schema, instance).into_iter().map(|i| i.code).collect()
}

#[test]
fn a_local_ref_resolves_through_defs() {
    let schema = json(
        r##"{
            "$defs": { "id": { "type": "string" } },
            "properties": { "id": { "$ref": "#/$defs/id" } }
        }"##,
    );
    assert!(codes(&schema, &json(r#"{"id": "x"}"#)).is_empty());
    assert_eq!(codes(&schema, &json(r#"{"id": 1}"#)), ["type"]);
    let dangling = json(r##"{ "$ref": "#/$defs/nowhere" }"##);
    assert_eq!(codes(&dangling, &json("1")), ["$ref"]);
}

#[test]
fn integer_admits_a_whole_float_and_refuses_a_fraction() {
    let schema = json(r#"{ "type": "integer" }"#);
    assert!(codes(&schema, &json("2.0")).is_empty());
    assert_eq!(codes(&schema, &json("2.5")), ["type"]);
}

#[test]
fn composition_keywords_report_as_themselves() {
    let one = json(r#"{ "oneOf": [{ "type": "string" }, { "type": "number" }] }"#);
    assert!(codes(&one, &json(r#""s""#)).is_empty());
    assert_eq!(codes(&one, &json("true")), ["oneOf"]);
    let not = json(r#"{ "not": { "type": "null" } }"#);
    assert_eq!(codes(&not, &json("null")), ["not"]);
    let any = json(r#"{ "anyOf": [{ "minimum": 10 }, { "maximum": 0 }] }"#);
    assert_eq!(codes(&any, &json("5")), ["anyOf"]);
}

#[test]
fn a_false_schema_admits_nothing_and_a_pointer_escapes() {
    assert_eq!(codes(&json("false"), &json("1")), ["false"]);
    let schema = json(r#"{ "properties": { "a/b": { "type": "null" } } }"#);
    let found = check(&schema, &schema, &json(r#"{"a/b": 1}"#), "");
    assert_eq!(found[0].path.as_deref(), Some("/a~1b"));
}

#[test]
fn a_true_schema_admits_everything() {
    for instance in ["null", "1", "\"s\"", "[1,2]", "{\"a\":{}}"] {
        assert!(codes(&json("true"), &json(instance)).is_empty());
    }
    let found = issues(&json("false"), &json("[]"));
    assert_eq!(found.len(), 1);
    assert_eq!(found[0].message, "nothing is allowed here");
    assert_eq!(found[0].path.as_deref(), Some("/"));
}

#[test]
fn unknown_keywords_are_ignored() {
    let plain = json(r#"{ "type": "string" }"#);
    let wider = json(r#"{ "type": "string", "pattern": "^a", "format": "email", "x-note": 1 }"#);
    for instance in ["\"b\"", "3", "null"] {
        assert_eq!(codes(&plain, &json(instance)), codes(&wider, &json(instance)));
    }
    assert!(codes(&json(r#"{ "pattern": "^a" }"#), &json("\"zzz\"")).is_empty());
}

#[test]
fn issues_lie_below_the_starting_location() {
    let schema = json(r#"{ "properties": { "lines": { "items": { "required": ["qty"] } } } }"#);
    let instance = json(r#"{"lines": [{}, {"qty": 1}, {}]}"#);
    let found = check(&schema, &schema, &instance, "/order");
    let paths: Vec<&str> = found.iter().filter_map(|i| i.path.as_deref()).collect();
    assert_eq!(paths, ["/order/lines/0/qty", "/order/lines/2/qty"]);
    assert!(found.iter().all(|i| i.code == "required"));
    assert_eq!(found[0].message, "missing property qty");
}

#[test]
fn type_names_every_allowed_type() {
    let schema = json(r#"{ "type": ["string", "null"] }"#);
    let found = issues(&schema, &json("1"));
    assert_eq!(found.len(), 1);
    assert_eq!(found[0].code, "type");
    assert_eq!(found[0].message, "is number, expected string or null");
    assert!(issues(&schema, &json("null")).is_empty());
    let odd = json(r#"{ "type": [1, 2] }"#);
    assert_eq!(issues(&odd, &json("1"))[0].message, "is number, expected ");
    let ignored = json(r#"{ "type": 7 }"#);
    assert!(issues(&ignored, &json("1")).is_empty());
}

#[test]
fn enum_and_const_compare_values() {
    let schema = json(r#"{ "enum": [1, "a", {"k": [true]}] }"#);
    assert!(codes(&schema, &json(r#"{"k": [true]}"#)).is_empty());
    assert!(codes(&schema, &json("1")).is_empty());
    assert_eq!(codes(&schema, &json("1.0")), ["enum"]);
    assert_eq!(codes(&schema, &json(r#""b""#)), ["enum"]);
    let constant = json(r#"{ "const": {"a": [1, 2.5, "x\n\"y\"", null, false]} }"#);
    let found = issues(&constant, &json("0"));
    assert_eq!(found[0].code, "const");
    assert_eq!(found[0].message, r#"must be {"a":[1,2.5,"x\n\"y\"",null,false]}"#);
    assert!(issues(&constant, &json(r#"{"a": [1, 2.5, "x\n\"y\"", null, false]}"#)).is_empty());
}

#[test]
fn sizes_are_reported_with_their_counts() {
    let schema = json(r#"{ "minItems": 2, "maxItems": 3, "minLength": 2, "maxLength": 3 }"#);
    let found = issues(&schema, &json("[1]"));
    assert_eq!(found[0].code, "minItems");
    assert_eq!(found[0].message, "has 1 items, at least 2 required");
    let found = issues(&schema, &json("[1,2,3,4]"));
    assert_eq!(found[0].message, "has 4 items, at most 3 allowed");
    let found = issues(&schema, &json(r#""ééééé""#));
    assert_eq!(found[0].code, "maxLength");
    assert_eq!(found[0].message, "is 5 characters, at most 3 allowed");
    let found = issues(&schema, &json(r#""é""#));
    assert_eq!(found[0].message, "is 1 characters, at least 2 required");
}

#[test]
fn numeric_bounds_compare_as_numbers() {
    let schema = json(r#"{ "minimum": 1.5, "maximum": 10, "exclusiveMinimum": 1, "exclusiveMaximum": 9 }"#);
    assert!(codes(&schema, &json("5")).is_empty());
    assert_eq!(codes(&schema, &json("1")), ["minimum", "exclusiveMinimum"]);
    assert_eq!(issues(&schema, &json("1"))[0].message, "1 is below the minimum");
    assert_eq!(codes(&schema, &json("10")), ["exclusiveMaximum"]);
    assert_eq!(issues(&schema, &json("10"))[0].message, "10 is not below the maximum");
    assert_eq!(codes(&schema, &json("-3")), ["minimum", "exclusiveMinimum"]);
    assert_eq!(codes(&schema, &json("11.25")), ["maximum", "exclusiveMaximum"]);
    assert_eq!(issues(&schema, &json("11.25"))[0].message, "11.25 is above the maximum");
}

#[test]
fn one_of_counts_its_matches() {
    let schema = json(r#"{ "oneOf": [{ "type": "number" }, { "type": "integer" }, { "maximum": 3 }] }"#);
    let found = issues(&schema, &json("2"));
    assert_eq!(found[0].message, "matches 3 alternatives, exactly one required");
    assert_eq!(issues(&schema, &json("2.5"))[0].message, "matches 2 alternatives, exactly one required");
    assert!(issues(&schema, &json(r#""s""#)).is_empty());
    let none = json(r#"{ "oneOf": [{ "type": "null" }] }"#);
    assert_eq!(issues(&none, &json("1"))[0].message, "matches 0 alternatives, exactly one required");
}

#[test]
fn additional_properties_may_be_a_schema() {
    let schema = json(r#"{ "properties": { "a": {} }, "additionalProperties": { "type": "string" } }"#);
    assert!(codes(&schema, &json(r#"{"a": 1, "b": "x"}"#)).is_empty());
    let found = issues(&schema, &json(r#"{"a": 1, "b~c": 2}"#));
    assert_eq!(found[0].code, "type");
    assert_eq!(found[0].path.as_deref(), Some("/b~0c"));
}

#[test]
fn all_of_reports_every_branch() {
    let schema = json(r#"{ "allOf": [{ "type": "string" }, { "minimum": 3 }, { "type": "object" }] }"#);
    assert_eq!(codes(&schema, &json("1")), ["type", "minimum", "type"]);
}

#[test]
fn any_of_stops_at_a_match() {
    let schema = json(r##"{ "anyOf": [{ "type": "number" }, { "$ref": "#" }] }"##);
    assert!(codes(&schema, &json("1")).is_empty());
}

#[test]
fn references_resolve_by_pointer() {
    let root = json(r#"{ "a": [10, {"b/c": 2, "m~n": 3}], "%x{}": 4 }"#);
    assert!(resolve_ref(&root, "#").is_some());
    assert!(resolve_ref(&root, "a").is_none());
    match resolve_ref(&root, "#/a/1/b~1c") {
        Some(Json::Number(n)) => assert_eq!(n.text, "2"),
        _ => panic!("expected 2"),
    }
    match resolve_ref(&root, "#/a/1/m~0n") {
        Some(Json::Number(n)) => assert_eq!(n.text, "3"),
        _ => panic!("expected 3"),
    }
    match resolve_ref(&root, "#/%25x%7B%7D") {
        Some(Json::Number(n)) => assert_eq!(n.text, "4"),
        _ => panic!("expected 4"),
    }
    assert!(resolve_ref(&root, "#/a/01").is_none());
    assert!(resolve_ref(&root, "#/a/+1").is_none());
    assert!(resolve_ref(&root, "#/a/2").is_none());
    assert!(resolve_ref(&root, "#a").is_none());
    let dangling = json(r##"{ "$ref": "#/nowhere" }"##);
    assert_eq!(issues(&dangling, &json("1"))[0].message, "unresolvable #/nowhere");
}

#[test]
fn child_paths_escape_their_names() {
    assert_eq!(child_path("", "a/b"), "/a~1b");
    assert_eq!(child_path("/x", "~/"), "/x/~0~1");
    assert_eq!(child_path("/x", "0"), "/x/0");
}

#[test]
fn a_member_location_points_back_to_the_member() {
    let root = json(r#"{ "a/b~c": 7, "": 8 }"#);
    for name in ["a/b~c", ""] {
        let location = child_path("", name);
        let reference = format!("#{location}");
        match resolve_ref(&root, &reference) {
            Some(Json::Number(n)) => assert_eq!(n.text, if name.is_empty() { "8" } else { "7" }),
            _ => panic!("member {name} not found at {location}"),
        }
    }
}

#[test]
fn every_issue_points_into_the_document() {
    let schema = json(
        r#"{
            "type": "object",
            "required": ["id", "lines"],
            "properties": {
                "id": { "type": "string", "minLength": 1 },
                "lines": { "type": "array", "items": { "required": ["sku"], "properties": { "qty": { "minimum": 1 } } } }
            },
            "additionalProperties": false
        }"#,
    );
    let doc = json(r#"{"id": "", "lines": [{"qty": 0}, {"sku": "a", "qty": 5}], "x/y": 1}"#);
    let found = check(&schema, &schema, &doc, "");
    assert_eq!(found.len(), 4);
    for issue in &found {
        let at = issue.path.clone().expect("a location");
        let resolved = resolve_ref(&doc, &format!("#{at}"));
        if issue.code == "required" {
            assert!(resolved.is_none(), "{at}");
        } else {
            assert!(resolved.is_some(), "{at}");
        }
    }
    let paths: Vec<&str> = found.iter().filter_map(|i| i.path.as_deref()).collect();
    assert_eq!(paths, ["/id", "/lines/0/sku", "/lines/0/qty", "/x~1y"]);
}

#[test]
fn references_without_a_cycle_finish_within_a_depth() {
    let schema = json(
        r##"{
            "$defs": {
                "qty": { "type": "integer", "minimum": 1 },
                "line": { "properties": { "qty": { "$ref": "#/$defs/qty" } } }
            },
            "properties": { "lines": { "items": { "$ref": "#/$defs/line" } } }
        }"##,
    );
    let order = json(r#"{"lines": [{"qty": 2}, {"qty": 0}]}"#);
    let found = check_within(&schema, &schema, &order, "", 64).expect("finishes");
    assert_eq!(found.len(), 1);
    assert_eq!(found[0].code, "minimum");
    assert_eq!(found[0].path.as_deref(), Some("/lines/1/qty"));
    assert!(check_within(&schema, &schema, &order, "", 2).is_none());
}

#[test]
fn a_reference_cycle_never_finishes_within_a_depth() {
    let schema = json(r##"{ "$ref": "#" }"##);
    assert!(check_within(&schema, &schema, &json("1"), "", 1000).is_none());
    let through_defs = json(r##"{ "$defs": { "a": { "$ref": "#/$defs/b" }, "b": { "$ref": "#/$defs/a" } }, "$ref": "#/$defs/a" }"##);
    assert!(check_within(&through_defs, &through_defs, &json("{}"), "", 1000).is_none());
}

#[test]
fn unknown_members_anywhere_or_replaced_change_nothing() {
    let kw = |members: Vec<(&str, Json)>| {
        Json::Object(members.into_iter().map(|(name, value)| (name.to_string(), value)).collect())
    };
    let plain = kw(vec![("type", Json::Text("integer".to_string())), ("minimum", json("2"))]);
    let first = kw(vec![
        ("x-note", json("[1, 2]")),
        ("type", Json::Text("integer".to_string())),
        ("minimum", json("2")),
    ]);
    let between = kw(vec![
        ("type", Json::Text("integer".to_string())),
        ("x-note", json("{\"minimum\": 99}")),
        ("minimum", json("2")),
    ]);
    for instance in ["1", "5", "\"s\"", "2.5"] {
        let expected = issues(&plain, &json(instance));
        for other in [&first, &between] {
            let found = issues(other, &json(instance));
            assert_eq!(found.len(), expected.len());
            for (a, b) in found.iter().zip(expected.iter()) {
                assert_eq!((&a.code, &a.message, &a.path), (&b.code, &b.message, &b.path));
            }
        }
    }
    assert_eq!(codes(&between, &json("1")), ["minimum"]);
}

#[test]
fn recursion_through_properties_finishes_with_the_instance() {
    let schema = json(
        r##"{
            "$defs": {
                "node": {
                    "type": "object",
                    "properties": { "n": { "type": "integer" }, "child": { "$ref": "#/$defs/node" } }
                }
            },
            "$ref": "#/$defs/node"
        }"##,
    );
    let tree = json(r#"{"n": 1, "child": {"n": "x", "child": {"n": 2}}}"#);
    let found = check_within(&schema, &schema, &tree, "", 8).expect("finishes within the bound");
    assert_eq!(found.len(), 1);
    assert_eq!(found[0].code, "type");
    assert_eq!(found[0].path.as_deref(), Some("/child/n"));
}
