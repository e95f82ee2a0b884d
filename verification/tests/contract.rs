use serde_json::Value;
use xmip_core_contract_json_schema::contract::Stream;
use xmip_core_contract_json_schema::json::{Json, Number, NumberKind};
use xmip_core_contract_json_schema::{JsonSchema, JsonSchemaFactory, SchemaFile, SyntaxError};

fn order_key(f: f64) -> i64 {
    let bits = f.to_bits() as i64;
    if bits < 0 {
        -(bits & i64::MAX)
    } else {
        bits
    }
}

fn number_of(n: &serde_json::Number) -> Number {
    let f = n.as_f64().expect("finite");
    let kind = if let Some(u) = n.as_u64() {
        NumberKind::PosInt(u)
    } else if let Some(i) = n.as_i64() {
        NumberKind::NegInt(i)
    } else {
        NumberKind::Float { whole: f.fract() == 0.0 }
    };
    Number { kind, order: order_key(f), shown: format!("{f}"), text: n.to_string() }
}

fn to_json(v: &Value) -> Json {
    match v {
        Value::Null => Json::Null,
        Value::Bool(b) => Json::Bool(*b),
        Value::Number(n) => Json::Number(number_of(n)),
        Value::String(s) => Json::Text(s.clone()),
        Value::Array(a) => Json::Array(a.iter().map(to_json).collect()),
        Value::Object(m) => Json::Object(m.iter().map(|(k, v)| (k.clone(), to_json(v))).collect()),
    }
}

fn json(text: &str) -> Json {
    to_json(&serde_json::from_str::<Value>(text).expect("test JSON"))
}

fn read(text: &str) -> Result<Json, SyntaxError> {
    match serde_json::from_str::<Value>(text) {
        Ok(v) => Ok(to_json(&v)),
        Err(e) => Err(SyntaxError { message: e.to_string(), line: e.line(), column: e.column() }),
    }
}

fn stream(text: &str, media_type: Option<&str>) -> Stream {
    Stream::new(text.as_bytes().to_vec(), media_type.map(|m| m.to_string()))
}

fn order_schema() -> Json {
    json(
        r#"{
            "$id": "order",
            "type": "object",
            "required": ["id", "lines"],
            "properties": {
                "id": { "type": "string", "minLength": 1 },
                "lines": {
                    "type": "array",
                    "minItems": 1,
                    "items": {
                        "type": "object",
                        "required": ["sku", "qty"],
                        "properties": {
                            "sku": { "type": "string" },
                            "qty": { "type": "integer", "minimum": 1 }
                        }
                    }
                }
            },
            "additionalProperties": false
        }"#,
    )
}

#[test]
fn bare_contract_holds_well_formed_json_only() {
    let bare = JsonSchema::new();
    let held = bare.validate(&read(r#"{"any":"shape"}"#));
    assert!(held.valid);
    let broken = bare.validate(&read("{not json"));
    assert_eq!(broken.issues[0].code, "malformed");
    assert!(broken.issues[0].path.as_deref().is_some_and(|p| p.starts_with("line 1")));
}

#[test]
fn bound_contract_holds_a_conforming_order() {
    let bound = JsonSchema::with_schema(order_schema()).ok().expect("a schema");
    assert_eq!(bound.descriptor().id.0, "json-schema:order");
    let text = r#"{"id":"A1","lines":[{"sku":"X","qty":2}]}"#;
    let held = bound.validate(&read(text));
    assert!(held.valid, "issues: {:?}", held.issues.iter().map(|i| i.code.clone()).collect::<Vec<_>>());
}

#[test]
fn bound_contract_names_every_departure_with_its_path() {
    let bound = JsonSchema::with_schema(order_schema()).ok().expect("a schema");
    let text = r#"{"id":"","lines":[{"sku":1,"qty":0}],"extra":true}"#;
    let held = bound.validate(&read(text));
    assert!(!held.valid);
    let paths: Vec<&str> = held.issues.iter().filter_map(|i| i.path.as_deref()).collect();
    assert!(paths.contains(&"/id"), "{paths:?}");
    assert!(paths.contains(&"/lines/0/sku"), "{paths:?}");
    assert!(paths.contains(&"/lines/0/qty"), "{paths:?}");
    assert!(paths.contains(&"/extra"), "{paths:?}");
}

#[test]
fn a_schema_must_be_an_object_or_boolean() {
    assert!(JsonSchema::with_schema(json(r#""no""#)).is_err());
    assert!(JsonSchema::with_schema(json("true")).is_ok());
}

#[test]
fn identifies_by_media_type_or_first_byte() {
    let bare = JsonSchema::new();
    assert!(bare.identify(&stream("x", Some("application/json"))).ok().expect("identifies"));
    assert!(bare
        .identify(&stream("x", Some("application/ld+json; charset=utf-8")))
        .ok()
        .expect("identifies"));
    assert!(bare.identify(&stream("  [1]", None)).ok().expect("identifies"));
    assert!(!bare.identify(&stream("a,b", Some("text/csv"))).ok().expect("identifies"));
}

#[test]
fn the_factory_loads_bare_and_bound() {
    let factory = JsonSchemaFactory;
    assert_eq!(factory.technology(), "json-schema");
    let bare = factory.load("", None).ok().expect("bare");
    assert_eq!(bare.descriptor().id.0, "json-schema");
    let reference = "/tmp/xmip-json-schema-test/order.schema.json";
    assert!(factory.reads_file(reference));
    let bound = factory.load(reference, Some(SchemaFile::Parsed(order_schema()))).ok().expect("bound");
    assert_eq!(bound.descriptor().id.0, "json-schema:order");
    let missing = "/tmp/xmip-json-schema-test/missing.json";
    assert!(factory
        .load(missing, Some(SchemaFile::Unreadable("No such file or directory (os error 2)".to_string())))
        .is_err());
}

#[test]
fn a_malformed_document_says_where_it_stopped() {
    let bare = JsonSchema::new();
    let broken = bare.validate(&read("{\"a\":\n  tru}"));
    assert!(!broken.valid);
    assert_eq!(broken.issues.len(), 1);
    assert_eq!(broken.issues[0].code, "malformed");
    assert!(broken.issues[0].message.starts_with("not valid JSON: "));
    assert_eq!(broken.issues[0].path.as_deref(), Some("line 2 column 6"));
    let error = SyntaxError { message: "oops".to_string(), line: 12, column: 345 };
    let issue = &bare.validate(&Err(error)).issues[0];
    assert_eq!(issue.message, "not valid JSON: oops");
    assert_eq!(issue.path.as_deref(), Some("line 12 column 345"));
}

#[test]
fn the_bare_contract_ignores_shape() {
    let bare = JsonSchema::default();
    assert!(!bare.is_bound());
    assert_eq!(bare.descriptor().id.0, "json-schema");
    assert_eq!(bare.descriptor().version, "1");
    assert_eq!(bare.descriptor().representation, "application/json");
    for text in ["1", "\"s\"", "[]", "null", "{\"deep\":[[{}]]}"] {
        let held = bare.validate(&read(text));
        assert!(held.valid && held.issues.is_empty());
    }
}

#[test]
fn a_bound_contract_is_named_after_its_schema() {
    let by_title = JsonSchema::with_schema(json(r#"{"title": "invoice"}"#)).ok().expect("schema");
    assert!(by_title.is_bound());
    assert_eq!(by_title.descriptor().id.0, "json-schema:invoice");
    let id_not_text = JsonSchema::with_schema(json(r#"{"$id": 3, "title": "invoice"}"#)).ok().expect("schema");
    assert_eq!(id_not_text.descriptor().id.0, "json-schema:bound");
    let boolean = JsonSchema::with_schema(json("false")).ok().expect("schema");
    assert_eq!(boolean.descriptor().id.0, "json-schema:bound");
    assert!(!boolean.validate(&read("{}")).valid);
    match JsonSchema::with_schema(json("[1]")) {
        Err(e) => assert_eq!(e.message, "a JSON Schema is an object or a boolean"),
        Ok(_) => panic!("an array is not a schema"),
    }
}

#[test]
fn media_types_are_read_by_their_essence() {
    let bare = JsonSchema::new();
    let yes = |m: &str| bare.identify(&stream("x", Some(m))).ok().expect("identifies");
    assert!(yes("Application/JSON"));
    assert!(yes("  application/json ; charset=utf-8"));
    assert!(yes("application/vnd.api+json"));
    assert!(!yes("application/+JSON"));
    assert!(!yes("text/plain; x=+json"));
    assert!(!yes("application/jsonx"));
    let first = |t: &str| bare.identify(&stream(t, None)).ok().expect("identifies");
    assert!(first("\n\t {\"a\":1}"));
    assert!(!first("   "));
    assert!(!first("\u{a0}{}"));
    assert!(!first("1"));
}

#[test]
fn the_factory_reports_what_reading_gave() {
    let factory = JsonSchemaFactory;
    assert!(!factory.reads_file(""));
    let bare = factory.load("", None).ok().expect("bare");
    assert!(!bare.is_bound());
    assert!(factory.reads_file("  \t"));
    match factory.load("  ", Some(SchemaFile::Unreadable("no such file".to_string()))) {
        Err(e) => assert_eq!(e.message, "cannot read schema   : no such file"),
        Ok(_) => panic!("a white-space reference is a path"),
    }
    match factory.load("s.json", Some(SchemaFile::Unreadable("denied".to_string()))) {
        Err(e) => assert_eq!(e.message, "cannot read schema s.json: denied"),
        Ok(_) => panic!("unreadable"),
    }
    match factory.load("s.json", Some(SchemaFile::NotJson("EOF".to_string()))) {
        Err(e) => assert_eq!(e.message, "schema s.json is not valid JSON: EOF"),
        Ok(_) => panic!("not JSON"),
    }
    match factory.load("s.json", Some(SchemaFile::Parsed(json("1")))) {
        Err(e) => assert_eq!(e.message, "a JSON Schema is an object or a boolean"),
        Ok(_) => panic!("not a schema"),
    }
}

#[test]
fn validation_within_a_depth_reports_malformed_documents() {
    let bare = JsonSchema::new();
    let broken = bare.validate_within(&read("{not json"), 0).expect("never refused");
    assert!(!broken.valid);
    assert_eq!(broken.issues.len(), 1);
    assert_eq!(broken.issues[0].code, "malformed");
    assert!(broken.issues[0].path.as_deref().is_some_and(|p| p.starts_with("line 1")));
    let bound = JsonSchema::with_schema(order_schema()).ok().expect("schema");
    let refused = bound.validate_within(&read("[1"), 0).expect("not JSON is always reported");
    assert_eq!(refused.issues[0].code, "malformed");
    assert!(bound.validate_within(&read(r#"{"id": "a"}"#), 0).is_none());
    let held = bound.validate_within(&read(r#"{"id": "a"}"#), 64).expect("finishes");
    assert_eq!(held.issues.len(), bound.validate(&read(r#"{"id": "a"}"#)).issues.len());
    let cyclic = JsonSchema::with_schema(json(r##"{ "$ref": "#" }"##)).ok().expect("schema");
    assert!(cyclic.validate_within(&read("{}"), 500).is_none());
    assert_eq!(cyclic.validate_within(&read("nope"), 500).expect("reported").issues[0].code, "malformed");
}

#[test]
fn parameters_and_padding_never_change_a_media_type() {
    let bare = JsonSchema::new();
    let yes = |m: &str| bare.identify(&stream("x", Some(m))).ok().expect("identifies");
    for essence in ["application/json", "APPLICATION/Json", "text/plain", "application/geo+json", "json"] {
        for (before, after) in [("", ""), (" \t", ""), ("", "  "), ("\u{2003}", "\n")] {
            for rest in ["", "charset=utf-8", "x=application/json", ";;"] {
                let padded = format!("{before}{essence}{after};{rest}");
                assert_eq!(yes(&padded), yes(essence), "{padded:?}");
                assert_eq!(yes(&format!("{before}{essence}{after}")), yes(essence));
            }
        }
    }
}
