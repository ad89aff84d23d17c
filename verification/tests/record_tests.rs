use rofi_tracker::QueryResult;
use rofi_tracker::escape_result;
use rofi_tracker::format_result;
use rofi_tracker::format_rofi_option;
use rofi_tracker::no_results_option;
use rofi_tracker::sparql_escape;

#[test]
fn escape_replaces_newline_and_deletes_nul() {
    assert_eq!(escape_result("a\nb\0c"), "a bc");
    assert_eq!(escape_result(""), "");
    assert_eq!(escape_result("\n\n"), "  ");
    assert_eq!(escape_result("\0\0"), "");
    assert_eq!(escape_result("plain"), "plain");
}

#[test]
fn sparql_escape_adds_backslashes() {
    assert_eq!(sparql_escape(r#"a\b"c'd"#), r#"a\\b\"c\'d"#);
    assert_eq!(sparql_escape("clean"), "clean");
    assert_eq!(sparql_escape(""), "");
}

#[test]
fn rofi_option_wire_layout() {
    let meta = vec![("info".to_string(), "abc".to_string())];
    let wire = format_rofi_option(Some("label"), &meta);
    assert_eq!(wire, b"label\x00info\x1fabc\x0a".to_vec());
}

#[test]
fn rofi_option_without_label() {
    let meta = vec![("k".to_string(), "v".to_string())];
    let wire = format_rofi_option(None, &meta);
    assert_eq!(wire, b"\x00k\x1fv\x0a".to_vec());
}

#[test]
fn rofi_option_joins_blocks_with_unit_separator() {
    let meta = vec![
        ("a".to_string(), "1".to_string()),
        ("b".to_string(), "2".to_string()),
    ];
    let wire = format_rofi_option(Some("x"), &meta);
    assert_eq!(wire, b"x\x00a\x1f1\x1fb\x1f2\x0a".to_vec());
}

#[test]
fn rofi_option_escapes_every_piece() {
    let meta = vec![("na\nme".to_string(), "va\0lue".to_string())];
    let wire = format_rofi_option(Some("la\n\0bel"), &meta);
    assert_eq!(wire, b"la bel\x00na me\x1fvalue\x0a".to_vec());
}

#[test]
fn no_results_line_is_exact() {
    assert_eq!(no_results_option(), b"no results\x00nonselectable\x1ftrue\x0a".to_vec());
}

#[test]
fn encoded_label_holds_no_raw_nul_or_newline() {
    let q = QueryResult::new("uid", "file:///a%0Ab/c%00d.txt", "ti\ntle", "").unwrap();
    let wire = format_result(&q);
    // the label region ends at the record's first NUL byte
    let label_end = wire.iter().position(|b| *b == 0).unwrap();
    for b in &wire[..label_end] {
        assert_ne!(*b, 0u8);
        assert_ne!(*b, 0x0au8);
    }
    // exactly one newline, at the very end
    assert_eq!(wire.iter().filter(|b| **b == 0x0a).count(), 1);
    assert_eq!(*wire.last().unwrap(), 0x0au8);
}

#[test]
fn encoding_is_deterministic() {
    let q = QueryResult::new("uid", "file:///a/b.txt", "Title", "snip").unwrap();
    let w1 = format_result(&q);
    let w2 = format_result(&q);
    assert_eq!(w1, w2);
}

#[test]
fn format_result_carries_identifier_in_info_block() {
    let q = QueryResult::new("the-uuid", "file:///x/y", "T", "").unwrap();
    let wire = format_result(&q);
    assert_eq!(wire, b"y: T [x]\x00info\x1fthe-uuid\x0a".to_vec());
}
