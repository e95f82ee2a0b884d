use xmip_core_contract_json_schema::json::{json_equal, push_quoted, Json};
use xmip_core_contract_json_schema::pointer::index_of_token;
use xmip_core_contract_json_schema::text::{push_decimal, replace_text, same_text, string_of_range, trim_bounds};

#[test]
fn replacing_scans_left_to_right_without_overlap() {
    assert_eq!(replace_text("aaa", "aa", "b"), "ba");
    assert_eq!(replace_text("%257B", "%25", "%"), "%7B");
    assert_eq!(replace_text("~01", "~1", "/"), "~01");
    assert_eq!(replace_text("", "x", "y"), "");
    assert_eq!(replace_text("é/é", "/", "~1"), "é~1é");
}

#[test]
fn decimals_and_text() {
    let mut s = String::from("n=");
    push_decimal(&mut s, 0);
    push_decimal(&mut s, 1234567890);
    push_decimal(&mut s, u64::MAX);
    assert_eq!(s, "n=0123456789018446744073709551615");
    assert!(same_text("héllo", "héllo"));
    assert!(!same_text("hello", "hell"));
    let cs: Vec<char> = "abcdef".chars().collect();
    assert_eq!(string_of_range(&cs, 1, 4), "bcd");
    let padded: Vec<char> = "\u{2003} a b \n".chars().collect();
    assert_eq!(trim_bounds(&padded), (2, 5));
}

#[test]
fn strings_are_quoted_with_escapes() {
    let mut s = String::new();
    push_quoted(&mut s, "a\"b\\c\u{1}\u{1f}\t/é");
    assert_eq!(s, "\"a\\\"b\\\\c\\u0001\\u001f\\t/é\"");
}

#[test]
fn equality_is_structural() {
    let a = Json::Array(vec![Json::Null, Json::Text("x".to_string())]);
    let b = Json::Array(vec![Json::Null, Json::Text("x".to_string())]);
    let c = Json::Array(vec![Json::Null]);
    assert!(json_equal(&a, &b));
    assert!(!json_equal(&a, &c));
    let o = Json::Object(vec![("k".to_string(), Json::Bool(true))]);
    let p = Json::Object(vec![("k".to_string(), Json::Bool(false))]);
    assert!(!json_equal(&o, &p));
}

#[test]
fn array_indexes_are_plain_decimals() {
    assert_eq!(index_of_token("0"), Some(0));
    assert_eq!(index_of_token("42"), Some(42));
    assert_eq!(index_of_token("007"), None);
    assert_eq!(index_of_token("+1"), None);
    assert_eq!(index_of_token("-1"), None);
    assert_eq!(index_of_token(""), None);
    assert_eq!(index_of_token("99999999999999999999999"), None);
}
