use rofi_tracker::QueryError;
use rofi_tracker::QueryResult;
use rofi_tracker::Locator;
use rofi_tracker::build_results;
use rofi_tracker::decode_resolve_reply;
use rofi_tracker::decode_rows;
use rofi_tracker::decode_search_reply;
use rofi_tracker::format_result;

fn push_u32le(v: &mut Vec<u8>, x: u32) {
    v.extend_from_slice(&x.to_le_bytes());
}

fn make_row(types: &[u32], fields: &[&[u8]]) -> Vec<u8> {
    let mut v = Vec::new();
    push_u32le(&mut v, fields.len() as u32);
    for t in types {
        push_u32le(&mut v, *t);
    }
    let mut base: u32 = 0;
    for f in fields {
        push_u32le(&mut v, base + f.len() as u32);
        base += f.len() as u32 + 1;
    }
    for f in fields {
        v.extend_from_slice(f);
        v.push(0);
    }
    v
}

#[test]
fn locator_parse_rejects_non_uri() {
    assert!(Locator::parse("not a uri").is_none());
    assert!(Locator::parse("file:///a/b").is_some());
}

#[test]
fn query_result_new_rejects_non_uri() {
    assert!(QueryResult::new("id", "definitely not a uri", "t", "s").is_none());
    assert!(QueryResult::new("id", "https://host/x", "t", "s").is_some());
}

#[test]
fn description_composes_name_title_and_parent() {
    let q = QueryResult::new("id2", "scheme://host/a/b.txt", "Title", "").unwrap();
    assert_eq!(q.description(), "b.txt: Title [a]");
}

#[test]
fn description_percent_decodes_segments() {
    let q = QueryResult::new("id", "file:///dir%20x/f%20y.txt", "", "").unwrap();
    assert_eq!(q.description(), "f y.txt:  [dir x]");
}

#[test]
fn description_without_segments_is_title_only() {
    // a mailto URI cannot be a base and has no path segments
    let q = QueryResult::new("id", "mailto:someone@example.com", "Mail", "").unwrap();
    assert_eq!(q.description(), "Mail");
}

#[test]
fn bad_locator_row_is_dropped_not_fatal() {
    let rows = vec![
        vec!["id1".to_string(), "not a uri".to_string(), "T".to_string(), "".to_string()],
        vec![
            "id2".to_string(),
            "scheme://host/a/b.txt".to_string(),
            "Title".to_string(),
            "".to_string(),
        ],
    ];
    let results = build_results(&rows);
    assert_eq!(results.len(), 1);
    assert_eq!(results[0].uuid(), "id2");
    assert_eq!(results[0].description(), "b.txt: Title [a]");
}

#[test]
fn search_reply_checks_advertised_columns() {
    let buf = make_row(&[0, 0, 0, 0], &[b"id", b"file:///a/b", b"", b""]);
    assert_eq!(decode_search_reply(3, &buf).unwrap_err(), QueryError::ProtocolError);
    let results = decode_search_reply(4, &buf).unwrap();
    assert_eq!(results.len(), 1);
    assert_eq!(results[0].uuid(), "id");
}

#[test]
fn search_reply_end_to_end_row_to_wire_bytes() {
    let buf = make_row(&[0, 0, 0, 0], &[b"id", b"", b"file:///a/b", b""]);
    let rows = decode_rows(&buf, 4).unwrap();
    assert_eq!(rows[0], vec!["id", "", "file:///a/b", ""]);
    // column order of the service reply: identifier, locator, title, snippet
    let buf2 = make_row(&[0, 0, 0, 0], &[b"id", b"file:///a/b", b"", b""]);
    let results = decode_search_reply(4, &buf2).unwrap();
    assert_eq!(results.len(), 1);
    let wire = format_result(&results[0]);
    assert_eq!(wire, b"b:  [a]\x00info\x1fid\x0a".to_vec());
}

#[test]
fn resolve_reply_returns_locator_text() {
    let mut buf = Vec::new();
    push_u32le(&mut buf, 1);
    push_u32le(&mut buf, 0);
    push_u32le(&mut buf, 11);
    buf.extend_from_slice(b"file:///a/b");
    assert_eq!(decode_resolve_reply(1, &buf).unwrap(), "file:///a/b");
}

#[test]
fn resolve_reply_wrong_columns_is_protocol_error() {
    let buf = [1u8, 0, 0, 0, 0, 0, 0, 0, 0, 0, 0, 0];
    assert_eq!(decode_resolve_reply(2, &buf).unwrap_err(), QueryError::ProtocolError);
}

#[test]
fn resolve_reply_empty_is_not_found() {
    assert_eq!(decode_resolve_reply(1, &[]).unwrap_err(), QueryError::NotFoundError);
}

#[test]
fn resolve_reply_trailing_bytes_is_protocol_error() {
    let mut buf = Vec::new();
    push_u32le(&mut buf, 1);
    push_u32le(&mut buf, 0);
    push_u32le(&mut buf, 2);
    buf.extend_from_slice(b"ab");
    buf.push(7);
    assert_eq!(decode_resolve_reply(1, &buf).unwrap_err(), QueryError::ProtocolError);
}

#[test]
fn resolve_reply_invalid_utf8_is_encoding_error() {
    let mut buf = Vec::new();
    push_u32le(&mut buf, 1);
    push_u32le(&mut buf, 0);
    push_u32le(&mut buf, 2);
    buf.extend_from_slice(b"\xff\xff");
    assert_eq!(decode_resolve_reply(1, &buf).unwrap_err(), QueryError::EncodingError);
}

#[test]
fn resolve_reply_bad_frame_is_format_error() {
    let buf = [9u8, 0, 0, 0, 0, 0, 0, 0, 0, 0, 0, 0];
    assert_eq!(decode_resolve_reply(1, &buf).unwrap_err(), QueryError::FormatError);
}
