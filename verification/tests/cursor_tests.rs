use rofi_tracker::QueryError;
use rofi_tracker::decode_frames;
use rofi_tracker::decode_rows;
use rofi_tracker::decode_single_frame;

fn push_u32le(v: &mut Vec<u8>, x: u32) {
    v.extend_from_slice(&x.to_le_bytes());
}

/// A well-formed multi-row frame for the given fields: tag, type tags,
/// cumulative markers (each past-the-field offset, baseline advancing over
/// the NUL), then NUL-terminated field data.
fn make_row(types: &[u32], fields: &[&[u8]]) -> Vec<u8> {
    let mut v = Vec::new();
    push_u32le(&mut v, fields.len() as u32);
    for t in types {
        push_u32le(&mut v, *t);
    }
    let mut base: u32 = 0;
    for f in fields {
        push_u32le(&mut v, base + f.len() as u32);
        base += f.len() as u32 + 1;
    }
    for f in fields {
        v.extend_from_slice(f);
        v.push(0);
    }
    v
}

#[test]
fn empty_buffer_is_zero_rows() {
    let rows = decode_rows(&[], 4).unwrap();
    assert_eq!(rows.len(), 0);
}

#[test]
fn one_row_recovers_marked_lengths() {
    let buf = make_row(&[0, 0, 0, 0], &[b"id", b"", b"file:///a/b", b""]);
    // cumulative markers for lengths 2, 0, 11, 0 are 2, 3, 15, 16
    assert_eq!(&buf[20..24], &2u32.to_le_bytes());
    assert_eq!(&buf[24..28], &3u32.to_le_bytes());
    assert_eq!(&buf[28..32], &15u32.to_le_bytes());
    assert_eq!(&buf[32..36], &16u32.to_le_bytes());
    let rows = decode_rows(&buf, 4).unwrap();
    assert_eq!(rows.len(), 1);
    assert_eq!(rows[0], vec!["id", "", "file:///a/b", ""]);
}

#[test]
fn two_rows_keep_order() {
    let mut buf = make_row(&[0, 0, 0, 0], &[b"id1", b"u1", b"t1", b"s1"]);
    buf.extend_from_slice(&make_row(&[0, 0, 0, 0], &[b"id2", b"u2", b"t2", b"s2"]));
    let rows = decode_rows(&buf, 4).unwrap();
    assert_eq!(rows.len(), 2);
    assert_eq!(rows[0][0], "id1");
    assert_eq!(rows[1][0], "id2");
}

#[test]
fn fields_may_hold_nul_bytes() {
    let buf = make_row(&[7, 7, 7, 7], &[b"a\0b", b"x", b"", b"y"]);
    let frames = decode_frames(&buf, 4).unwrap();
    assert_eq!(frames[0][0], b"a\0b");
    assert_eq!(frames[0][3], b"y");
}

#[test]
fn bad_tag_is_format_error() {
    let mut buf = make_row(&[0, 0, 0, 0], &[b"a", b"b", b"c", b"d"]);
    buf[0] = 5;
    assert_eq!(decode_rows(&buf, 4).unwrap_err(), QueryError::FormatError);
}

#[test]
fn truncated_header_is_format_error() {
    let buf = vec![4u8, 0, 0, 0, 1, 2];
    assert_eq!(decode_rows(&buf, 4).unwrap_err(), QueryError::FormatError);
}

#[test]
fn truncated_data_is_format_error() {
    let mut buf = make_row(&[0, 0, 0, 0], &[b"a", b"b", b"c", b"d"]);
    buf.truncate(buf.len() - 3);
    assert_eq!(decode_rows(&buf, 4).unwrap_err(), QueryError::FormatError);
}

#[test]
fn marker_underflow_is_format_error() {
    let mut buf = make_row(&[0, 0, 0, 0], &[b"ab", b"c", b"d", b"e"]);
    // second marker below the advanced baseline: a negative field length
    buf[24..28].copy_from_slice(&1u32.to_le_bytes());
    assert_eq!(decode_rows(&buf, 4).unwrap_err(), QueryError::FormatError);
}

#[test]
fn missing_nul_is_format_error() {
    let mut buf = make_row(&[0, 0, 0, 0], &[b"ab", b"c", b"d", b"e"]);
    let nul_at = 36 + 2;
    assert_eq!(buf[nul_at], 0);
    buf[nul_at] = b'!';
    assert_eq!(decode_rows(&buf, 4).unwrap_err(), QueryError::FormatError);
}

#[test]
fn trailing_garbage_after_rows_is_format_error() {
    let mut buf = make_row(&[0, 0, 0, 0], &[b"a", b"b", b"c", b"d"]);
    buf.push(9);
    assert_eq!(decode_rows(&buf, 4).unwrap_err(), QueryError::FormatError);
}

#[test]
fn invalid_utf8_is_encoding_error() {
    let buf = make_row(&[0, 0, 0, 0], &[b"ok", b"\xff\xfe", b"", b""]);
    assert_eq!(decode_rows(&buf, 4).unwrap_err(), QueryError::EncodingError);
}

#[test]
fn single_column_rows_decode_too() {
    let mut buf = make_row(&[1], &[b"only"]);
    buf.extend_from_slice(&make_row(&[1], &[b"two"]));
    let rows = decode_rows(&buf, 1).unwrap();
    assert_eq!(rows, vec![vec!["only".to_string()], vec!["two".to_string()]]);
}

#[test]
fn single_frame_recovers_exact_length() {
    let mut buf = Vec::new();
    push_u32le(&mut buf, 1);
    push_u32le(&mut buf, 0);
    push_u32le(&mut buf, 11);
    buf.extend_from_slice(b"file:///a/b");
    let (payload, consumed) = decode_single_frame(&buf).unwrap();
    assert_eq!(payload, b"file:///a/b");
    assert_eq!(consumed, 23);
}

#[test]
fn single_frame_consumes_no_trailing_nul() {
    let mut buf = Vec::new();
    push_u32le(&mut buf, 1);
    push_u32le(&mut buf, 3);
    push_u32le(&mut buf, 3);
    buf.extend_from_slice(b"abc");
    buf.push(0); // a stray NUL after the frame is not part of it
    let (payload, consumed) = decode_single_frame(&buf).unwrap();
    assert_eq!(payload, b"abc");
    assert_eq!(consumed, 15);
    assert_eq!(buf.len(), 16);
}

#[test]
fn single_frame_bad_tag_is_format_error() {
    let mut buf = Vec::new();
    push_u32le(&mut buf, 4);
    push_u32le(&mut buf, 0);
    push_u32le(&mut buf, 0);
    assert_eq!(decode_single_frame(&buf).unwrap_err(), QueryError::FormatError);
}

#[test]
fn single_frame_truncated_is_format_error() {
    let mut buf = Vec::new();
    push_u32le(&mut buf, 1);
    push_u32le(&mut buf, 0);
    push_u32le(&mut buf, 10);
    buf.extend_from_slice(b"short");
    assert_eq!(decode_single_frame(&buf).unwrap_err(), QueryError::FormatError);
}
