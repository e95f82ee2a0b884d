use xmip_core_contract_json_schema::format::{compiled, holds_format, is_date, is_time};

#[test]
fn dates_have_a_month_and_a_day_in_range() {
    assert!(is_date("2024-02-29"));
    assert!(is_date("0000-12-31"));
    assert!(!is_date("2024-13-01"));
    assert!(!is_date("2024-00-10"));
    assert!(!is_date("2024-01-32"));
    assert!(!is_date("2024-1-01"));
    assert!(!is_date("2024/01/01"));
    assert!(!is_date("2024-01-01-"));
    assert!(!is_date("２024-01-01"));
}

#[test]
fn times_start_with_hours_minutes_seconds() {
    assert!(is_time("12:30:59"));
    assert!(is_time("12:30:59.123Z"));
    assert!(is_time("23:59:60+01:00"));
    assert!(!is_time("12:30"));
    assert!(!is_time("12-30-59"));
    assert!(!is_time("12:30:59 UTC"));
    assert!(!is_time("1a:30:59"));
}

#[test]
fn date_time_joins_at_the_first_t() {
    assert!(holds_format("date-time", "2024-05-01T10:00:00Z"));
    assert!(holds_format("date-time", "2024-05-01t10:00:00"));
    assert!(!holds_format("date-time", "2024-05-01 10:00:00"));
    assert!(!holds_format("date-time", "2024-05-01T10:00"));
}

#[test]
fn emails_uris_and_uuids() {
    assert!(holds_format("email", "a@b.c"));
    assert!(!holds_format("email", "@b.c"));
    assert!(!holds_format("email", "a@bc"));
    assert!(!holds_format("email", "a@b.c."));
    assert!(holds_format("email", "a@b@c.d"));
    assert!(holds_format("uri", "https://example.com"));
    assert!(holds_format("uri", "urn:isbn:1"));
    assert!(!holds_format("uri", "1http://x"));
    assert!(!holds_format("uri", "http:"));
    assert!(!holds_format("uri", "ht_tp://x"));
    assert!(holds_format("uuid", "123e4567-e89b-12d3-a456-426614174000"));
    assert!(holds_format("uuid", "123E4567-E89B-12D3-A456-426614174000"));
    assert!(!holds_format("uuid", "123e4567e89b12d3a456426614174000"));
    assert!(!holds_format("uuid", "123e4567-e89b-12d3-a456-42661417400g"));
}

#[test]
fn ipv4_addresses_are_four_decimal_octets() {
    assert!(holds_format("ipv4", "192.168.0.1"));
    assert!(holds_format("ipv4", "0.0.0.0"));
    assert!(holds_format("ipv4", "255.255.255.255"));
    assert!(!holds_format("ipv4", "256.1.1.1"));
    assert!(!holds_format("ipv4", "01.1.1.1"));
    assert!(!holds_format("ipv4", "1.1.1"));
    assert!(!holds_format("ipv4", "1.1.1.1.1"));
    assert!(!holds_format("ipv4", "1.1.1."));
    assert!(!holds_format("ipv4", "1..1.1"));
    assert!(!holds_format("ipv4", "1.1.1.1 "));
}

#[test]
fn ipv6_addresses_have_eight_groups_or_one_gap() {
    assert!(holds_format("ipv6", "::"));
    assert!(holds_format("ipv6", "::1"));
    assert!(holds_format("ipv6", "1::"));
    assert!(holds_format("ipv6", "2001:db8::ff00:42:8329"));
    assert!(holds_format("ipv6", "2001:0db8:0000:0000:0000:ff00:0042:8329"));
    assert!(holds_format("ipv6", "::ffff:192.0.2.128"));
    assert!(holds_format("ipv6", "1:2:3:4:5:6:1.2.3.4"));
    assert!(holds_format("ipv6", "1:2:3:4:5:6:7::"));
    assert!(!holds_format("ipv6", "1:2:3:4:5:6:7:8::"));
    assert!(!holds_format("ipv6", "1:2:3:4:5:6::1.2.3.4"));
    assert!(!holds_format("ipv6", "1:2:3:4:5:6:7"));
    assert!(!holds_format("ipv6", "1::2::3"));
    assert!(!holds_format("ipv6", ":::"));
    assert!(!holds_format("ipv6", "12345::"));
    assert!(!holds_format("ipv6", "1.2.3.4::"));
    assert!(!holds_format("ipv6", "::1.2.3.4:5"));
    assert!(!holds_format("ipv6", "g::"));
}

#[test]
fn regex_format_and_patterns_compile_with_the_regex_crate() {
    assert!(holds_format("regex", "^a+$"));
    assert!(!holds_format("regex", "foo(bar"));
    assert!(compiled("a|b").is_some());
    assert_eq!(compiled("a").expect("compiles").source(), "a");
    assert_eq!(compiled("^x+$").expect("compiles").source(), "^x+$");
    assert!(compiled("(").is_none());
}

#[test]
fn unknown_formats_hold() {
    assert!(holds_format("hostname", "not checked"));
    assert!(holds_format("", ""));
}
