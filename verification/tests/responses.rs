//! Tests of response classification, the query result tree, and the
//! chunked-response splitter.

use influx_db_client::error::Error;
use influx_db_client::keys::{Node, Query, Scalar, Series};
use influx_db_client::response::{ChunkCursor, ChunkStep};
use influx_db_client::response::{query_response, write_response};

#[test]
fn write_success_statuses() {
    assert!(write_response(200, "").is_ok());
    assert!(write_response(204, "ignored").is_ok());
}

#[test]
fn write_bad_request_yields_syntax_error_with_extracted_message() {
    match write_response(400, "{\"error\":\"foo\"}") {
        Err(Error::SyntaxError(m)) => assert_eq!(m, "foo"),
        other => panic!("unexpected outcome: {:?}", other),
    }
}

#[test]
fn unauthorized_yields_invalid_credentials_regardless_of_body() {
    for status in [401u16, 403] {
        for body in ["", "{\"error\":\"x\"}", "garbage"] {
            match write_response(status, body) {
                Err(Error::InvalidCredentials(m)) => {
                    assert_eq!(m, "Invalid authentication credentials.")
                }
                other => panic!("unexpected outcome: {:?}", other),
            }
            match query_response(status, body) {
                Err(Error::InvalidCredentials(m)) => {
                    assert_eq!(m, "Invalid authentication credentials.")
                }
                other => panic!("unexpected outcome: {:?}", other),
            }
        }
    }
}

#[test]
fn write_not_found_yields_database_does_not_exist() {
    match write_response(404, "{\"error\":\"database not found: mydb\"}") {
        Err(Error::DataBaseDoesNotExist(m)) => assert_eq!(m, "database not found: mydb"),
        other => panic!("unexpected outcome: {:?}", other),
    }
}

#[test]
fn write_server_error_yields_retention_policy_error_with_raw_body() {
    match write_response(500, "{\"error\":\"rp missing\"}") {
        Err(Error::RetentionPolicyDoesNotExist(m)) => {
            assert_eq!(m, "{\"error\":\"rp missing\"}")
        }
        other => panic!("unexpected outcome: {:?}", other),
    }
}

#[test]
fn unknown_statuses_yield_unknown() {
    for status in [100u16, 301, 418, 503] {
        match write_response(status, "whatever") {
            Err(Error::Unknown(m)) => assert_eq!(m, "There is something wrong"),
            other => panic!("unexpected outcome: {:?}", other),
        }
        match query_response(status, "whatever") {
            Err(Error::Unknown(m)) => assert_eq!(m, "There is something wrong"),
            other => panic!("unexpected outcome: {:?}", other),
        }
    }
}

#[test]
fn query_success_statuses() {
    assert!(query_response(200, "").is_ok());
    assert!(query_response(204, "").is_ok());
}

#[test]
fn query_bad_request_uses_the_extracted_error_field() {
    match query_response(400, "error parsing query: found x") {
        Err(Error::SyntaxError(m)) => assert_eq!(m, "error parsing query: found x"),
        other => panic!("unexpected outcome: {:?}", other),
    }
}

#[test]
fn error_messages_are_reachable_by_kind() {
    let e = Error::Communication("connection refused".to_string());
    assert_eq!(e.message().as_str(), "connection refused");
    let e = Error::SyntaxError("bad".to_string());
    assert_eq!(e.message().as_str(), "bad");
}

#[test]
fn series_check_accepts_matching_rows() {
    let s = Series {
        name: "cpu".to_string(),
        tags: Some(vec![("host".to_string(), "a".to_string())]),
        columns: vec!["time".to_string(), "value".to_string()],
        values: Some(vec![
            vec![Scalar::Integer(1), Scalar::Float("0.5".to_string())],
            vec![Scalar::Integer(2), Scalar::Null],
        ]),
    };
    assert!(s.check());
    let q = Query {
        results: Some(vec![Node { series: Some(vec![s]), error: None }]),
        error: None,
    };
    assert!(q.check());
}

#[test]
fn series_check_rejects_a_short_row() {
    let s = Series {
        name: "cpu".to_string(),
        tags: None,
        columns: vec!["time".to_string(), "value".to_string()],
        values: Some(vec![vec![Scalar::Integer(1)]]),
    };
    assert!(!s.check());
    let q = Query {
        results: Some(vec![Node { series: Some(vec![s]), error: None }]),
        error: None,
    };
    assert!(!q.check());
}

const DOC1: &str = "{\"results\":[{\"series\":[{\"name\":\"a\",\"columns\":[\"c\"],\"values\":[[1]]}]}]}";
const DOC2: &str = "{\"results\":[{\"series\":[{\"name\":\"b {not a doc}\",\"columns\":[\"c\"],\"values\":[[2]]}]}]}";
const DOC3: &str = "{\"error\":\"with \\\" quote and } brace\"}";

#[test]
fn chunked_stream_yields_three_documents_in_arrival_order() {
    let mut cursor = ChunkCursor::new();
    let body = format!("{}\n{}\n{}\n", DOC1, DOC2, DOC3);
    cursor.feed(body.as_bytes());
    let mut docs: Vec<Vec<u8>> = Vec::new();
    loop {
        match cursor.next_document() {
            ChunkStep::Document(d) => docs.push(d),
            ChunkStep::NeedMore => break,
            ChunkStep::Corrupt => panic!("stream wrongly reported corrupt"),
        }
    }
    assert_eq!(docs.len(), 3);
    assert_eq!(String::from_utf8(docs[0].clone()).unwrap(), DOC1);
    assert_eq!(String::from_utf8(docs[1].clone()).unwrap().trim_start(), DOC2);
    assert_eq!(String::from_utf8(docs[2].clone()).unwrap().trim_start(), DOC3);
    for d in &docs {
        let v: serde_json::Value = serde_json::from_slice(d).unwrap();
        assert!(v.is_object());
    }
}

#[test]
fn chunked_stream_is_lazy_and_forward_only() {
    let mut cursor = ChunkCursor::new();
    let (head, tail) = DOC1.split_at(10);
    cursor.feed(head.as_bytes());
    assert_eq!(cursor.next_document(), ChunkStep::NeedMore);
    cursor.feed(tail.as_bytes());
    match cursor.next_document() {
        ChunkStep::Document(d) => assert_eq!(String::from_utf8(d).unwrap(), DOC1),
        other => panic!("unexpected step: {:?}", other),
    }
    // nothing buffered beyond the consumed document
    assert_eq!(cursor.next_document(), ChunkStep::NeedMore);
}

#[test]
fn a_stray_closing_brace_is_corrupt_not_end_of_stream() {
    let mut cursor = ChunkCursor::new();
    cursor.feed(b"}garbage");
    assert_eq!(cursor.next_document(), ChunkStep::Corrupt);
    // corrupt is terminal for these bytes: feeding more does not mend it
    cursor.feed(DOC1.as_bytes());
    assert_eq!(cursor.next_document(), ChunkStep::Corrupt);
}

#[test]
fn braces_inside_strings_do_not_end_a_document() {
    let mut cursor = ChunkCursor::new();
    cursor.feed(DOC3.as_bytes());
    match cursor.next_document() {
        ChunkStep::Document(d) => {
            assert_eq!(String::from_utf8(d).unwrap(), DOC3);
            let v: serde_json::Value = serde_json::from_slice(DOC3.as_bytes()).unwrap();
            assert_eq!(
                v.get("error").unwrap().as_str().unwrap(),
                "with \" quote and } brace"
            );
        }
        other => panic!("unexpected step: {:?}", other),
    }
}
