//! Tests of the line-protocol encoder and the text helpers.

use influx_db_client::keys::{Point, Points, Precision, Value};
use influx_db_client::serialization::{
    conversion, escape_keys_and_tags, escape_measurement, line_serialization, quote_ident,
    quote_literal,
};

fn simple_point() -> Point {
    let mut p = Point::new("temp");
    p.add_tag("city", Value::Text("NY".to_string()));
    p.add_field("value", Value::Float("21.5".to_string()));
    p
}

#[test]
fn encodes_the_documented_example_exactly() {
    let points = Points::new(simple_point());
    assert_eq!(line_serialization(&points), "temp,city=NY value=21.5");
}

#[test]
fn tag_block_precedes_field_block() {
    let mut p = Point::new("m");
    // fields first, tags second: the emitted order must still be tags
    // before fields
    let mut q = Point::new("m");
    q.add_field("f", Value::Integer(1));
    q.add_tag("t", Value::Text("v".to_string()));
    p.add_tag("t", Value::Text("v".to_string()));
    p.add_field("f", Value::Integer(1));
    let a = line_serialization(&Points::new(p));
    let b = line_serialization(&Points::new(q));
    assert_eq!(a, "m,t=v f=1i");
    assert_eq!(a, b);
}

#[test]
fn measurement_escapes_comma_and_space() {
    let mut p = Point::new("my room,etc");
    p.add_field("f", Value::Boolean(true));
    assert_eq!(
        line_serialization(&Points::new(p)),
        "my\\ room\\,etc f=true"
    );
}

#[test]
fn keys_and_tag_values_escape_delimiters() {
    let mut p = Point::new("m");
    p.add_tag("a,b c=d", Value::Text("x y,z=w".to_string()));
    p.add_field("k e,y=", Value::Integer(0));
    assert_eq!(
        line_serialization(&Points::new(p)),
        "m,a\\,b\\ c\\=d=x\\ y\\,z\\=w k\\ e\\,y\\==0i"
    );
}

#[test]
fn text_field_values_are_quoted_and_escaped() {
    let mut p = Point::new("m");
    p.add_field("quto", Value::Text("\\\"fda".to_string()));
    assert_eq!(
        line_serialization(&Points::new(p)),
        "m quto=\"\\\\\\\"fda\""
    );
}

#[test]
fn text_field_round_trips_through_one_layer_of_escaping() {
    let original = "a\\b\"c\\\"d";
    let mut p = Point::new("m");
    p.add_field("f", Value::Text(original.to_string()));
    let line = line_serialization(&Points::new(p));
    // strip `m f="` and the closing quote, then unescape one layer
    let inner = &line["m f=\"".len()..line.len() - 1];
    let mut restored = String::new();
    let mut chars = inner.chars();
    while let Some(c) = chars.next() {
        if c == '\\' {
            restored.push(chars.next().unwrap());
        } else {
            restored.push(c);
        }
    }
    assert_eq!(restored, original);
}

#[test]
fn integer_fields_carry_the_i_suffix() {
    let mut p = Point::new("m");
    p.add_field("a", Value::Integer(11));
    p.add_field("b", Value::Integer(-5));
    p.add_field("c", Value::Integer(i64::MIN));
    p.add_field("d", Value::Integer(i64::MAX));
    assert_eq!(
        line_serialization(&Points::new(p)),
        "m a=11i,b=-5i,c=-9223372036854775808i,d=9223372036854775807i"
    );
}

#[test]
fn integer_fields_parse_back_to_the_same_integer() {
    for v in [0i64, 7, -1, 42_000_000_000, i64::MIN, i64::MAX] {
        let mut p = Point::new("m");
        p.add_field("f", Value::Integer(v));
        let line = line_serialization(&Points::new(p));
        let text = &line["m f=".len()..];
        assert!(text.ends_with('i'));
        let parsed: i64 = text[..text.len() - 1].parse().unwrap();
        assert_eq!(parsed, v);
    }
}

#[test]
fn float_fields_have_no_suffix() {
    let mut p = Point::new("m");
    p.add_field("f", Value::Float(format!("{}", 22.3f64)));
    assert_eq!(line_serialization(&Points::new(p)), "m f=22.3");
}

#[test]
fn boolean_fields_are_bare_words() {
    let mut p = Point::new("m");
    p.add_field("t", Value::Boolean(true));
    p.add_field("f", Value::Boolean(false));
    assert_eq!(line_serialization(&Points::new(p)), "m t=true,f=false");
}

#[test]
fn numeric_tag_values_are_stringified() {
    let mut p = Point::new("m");
    p.add_tag("number", Value::Integer(12));
    p.add_tag("float", Value::Float("12.6".to_string()));
    p.add_tag("flag", Value::Boolean(false));
    p.add_field("f", Value::Integer(1));
    assert_eq!(
        line_serialization(&Points::new(p)),
        "m,number=12,float=12.6,flag=false f=1i"
    );
}

#[test]
fn timestamp_is_space_separated_and_bare() {
    let mut p = Point::new("m");
    p.add_field("f", Value::Integer(1));
    p.add_timestamp(1_434_055_562_000_000_000);
    assert_eq!(
        line_serialization(&Points::new(p)),
        "m f=1i 1434055562000000000"
    );
    let mut q = Point::new("m");
    q.add_field("f", Value::Integer(1));
    q.add_timestamp(-42);
    assert_eq!(line_serialization(&Points::new(q)), "m f=1i -42");
}

#[test]
fn points_are_joined_by_newline_without_trailing_terminator() {
    let mut a = Point::new("a");
    a.add_field("f", Value::Integer(1));
    let mut b = Point::new("b");
    b.add_field("f", Value::Integer(2));
    let mut points = Points::new(a);
    points.push(b);
    assert_eq!(line_serialization(&points), "a f=1i\nb f=2i");
}

#[test]
fn empty_points_give_an_empty_payload() {
    let points = Points::create_new(Vec::new());
    assert_eq!(line_serialization(&points), "");
}

#[test]
fn zero_tags_leave_no_comma_artifacts() {
    let mut p = Point::new("m");
    p.add_field("f", Value::Integer(3));
    assert_eq!(line_serialization(&Points::new(p)), "m f=3i");
}

#[test]
fn escape_helpers_match_their_contexts() {
    assert_eq!(escape_keys_and_tags("a,b c=d"), "a\\,b\\ c\\=d");
    assert_eq!(escape_measurement("a,b c=d"), "a\\,b\\ c=d");
    assert_eq!(quote_ident("db\"name\\x\ny"), "\"db\\\"name\\\\x\\ny\"");
    assert_eq!(quote_literal("pa'ss\\w"), "'pa\\'ss\\\\w'");
}

#[test]
fn precision_tokens() {
    assert_eq!(Precision::Nanoseconds.to_str(), "ns");
    assert_eq!(Precision::Microseconds.to_str(), "us");
    assert_eq!(Precision::Milliseconds.to_str(), "ms");
    assert_eq!(Precision::Seconds.to_str(), "s");
    assert_eq!(Precision::Minutes.to_str(), "m");
    assert_eq!(Precision::Hours.to_str(), "h");
}

#[test]
fn conversion_strips_the_error_boilerplate() {
    assert_eq!(conversion("{\"error\":\"foo\"}"), "foo");
    assert_eq!(conversion("{\"error\":\"foo\"}\n"), "foo");
    assert_eq!(conversion("foo"), "foo");
    assert_eq!(conversion(""), "");
    assert_eq!(conversion("database not found: mydb"), "database not found: mydb");
}

// ---- a reference tokenizer for round-trip checks ----

#[derive(Debug, PartialEq)]
enum FieldVal {
    Text(String),
    Integer(i64),
    Float(String),
    Boolean(bool),
}

struct ParsedLine {
    measurement: String,
    tags: Vec<(String, String)>,
    fields: Vec<(String, FieldVal)>,
    timestamp: Option<i64>,
}

/// Split on a delimiter that is not preceded by a backslash and does
/// not stand inside a quoted field value.
fn split_unescaped(s: &str, delim: char) -> Vec<String> {
    let mut parts = vec![String::new()];
    let mut prev_backslash = false;
    let mut in_quotes = false;
    for c in s.chars() {
        if c == '"' && !prev_backslash {
            in_quotes = !in_quotes;
        }
        if c == delim && !prev_backslash && !in_quotes {
            parts.push(String::new());
        } else {
            parts.last_mut().unwrap().push(c);
        }
        prev_backslash = c == '\\' && !prev_backslash;
    }
    parts
}

fn unescape_token(s: &str) -> String {
    let mut out = String::new();
    let mut chars = s.chars().peekable();
    while let Some(c) = chars.next() {
        if c == '\\' {
            match chars.peek() {
                Some(&d) if d == ',' || d == '=' || d == ' ' => {
                    out.push(d);
                    chars.next();
                }
                _ => out.push(c),
            }
        } else {
            out.push(c);
        }
    }
    out
}

fn parse_field_val(s: &str) -> FieldVal {
    if s.starts_with('"') && s.ends_with('"') {
        let inner = &s[1..s.len() - 1];
        let mut out = String::new();
        let mut chars = inner.chars();
        while let Some(c) = chars.next() {
            if c == '\\' {
                out.push(chars.next().unwrap());
            } else {
                out.push(c);
            }
        }
        FieldVal::Text(out)
    } else if s == "true" {
        FieldVal::Boolean(true)
    } else if s == "false" {
        FieldVal::Boolean(false)
    } else if s.ends_with('i') {
        FieldVal::Integer(s[..s.len() - 1].parse().unwrap())
    } else {
        FieldVal::Float(s.to_string())
    }
}

fn parse_line(line: &str) -> ParsedLine {
    let sections = split_unescaped(line, ' ');
    let head = split_unescaped(&sections[0], ',');
    let measurement = unescape_token(&head[0]);
    let mut tags = Vec::new();
    for t in &head[1..] {
        let kv = split_unescaped(t, '=');
        tags.push((unescape_token(&kv[0]), unescape_token(&kv[1])));
    }
    let mut fields = Vec::new();
    for f in split_unescaped(&sections[1], ',') {
        let kv = split_unescaped(&f, '=');
        fields.push((unescape_token(&kv[0]), parse_field_val(&kv[1])));
    }
    let timestamp = if sections.len() > 2 {
        Some(sections[2].parse().unwrap())
    } else {
        None
    };
    ParsedLine { measurement, tags, fields, timestamp }
}

#[test]
fn round_trip_recovers_points_in_order() {
    let mut a = Point::new("cpu load,short");
    a.add_tag("host", Value::Text("server 01".to_string()));
    a.add_tag("region", Value::Text("us=west".to_string()));
    a.add_field("value", Value::Float("0.64".to_string()));
    a.add_field("label", Value::Text("hi \"there\" \\ ok".to_string()));
    a.add_timestamp(1_434_055_562);

    let mut b = Point::new("mem");
    b.add_field("used", Value::Integer(-1234));
    b.add_field("ok", Value::Boolean(true));

    let mut points = Points::new(a);
    points.push(b);
    let payload = line_serialization(&points);
    let lines: Vec<&str> = payload.split('\n').collect();
    assert_eq!(lines.len(), 2);

    let first = parse_line(lines[0]);
    assert_eq!(first.measurement, "cpu load,short");
    assert_eq!(
        first.tags,
        vec![
            ("host".to_string(), "server 01".to_string()),
            ("region".to_string(), "us=west".to_string()),
        ]
    );
    assert_eq!(
        first.fields,
        vec![
            ("value".to_string(), FieldVal::Float("0.64".to_string())),
            (
                "label".to_string(),
                FieldVal::Text("hi \"there\" \\ ok".to_string())
            ),
        ]
    );
    assert_eq!(first.timestamp, Some(1_434_055_562));

    let second = parse_line(lines[1]);
    assert_eq!(second.measurement, "mem");
    assert_eq!(second.tags, Vec::new());
    assert_eq!(
        second.fields,
        vec![
            ("used".to_string(), FieldVal::Integer(-1234)),
            ("ok".to_string(), FieldVal::Boolean(true)),
        ]
    );
    assert_eq!(second.timestamp, None);
}
