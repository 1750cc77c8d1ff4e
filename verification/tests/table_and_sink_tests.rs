use escape_scan::sink::Buffer;
use escape_scan::table::EscapeTable;

#[test]
fn fresh_table_escapes_nothing() {
    let t = EscapeTable::new();
    for b in 0..=255u8 {
        assert!(t.lookup(b).is_none(), "byte {}", b);
    }
}

#[test]
fn mapped_byte_is_found() {
    let mut t = EscapeTable::new();
    t.map_byte(b'&', b"&amp;".to_vec());
    assert_eq!(t.lookup(b'&').unwrap().as_slice(), b"&amp;" as &[u8]);
    assert!(t.lookup(b'<').is_none());
}

#[test]
fn remapping_a_byte_overrides_it() {
    let mut t = EscapeTable::new();
    t.map_byte(b'<', b"&lt;".to_vec());
    t.map_byte(b'<', b"[lt]".to_vec());
    assert_eq!(t.lookup(b'<').unwrap().as_slice(), b"[lt]" as &[u8]);
}

#[test]
fn buffer_starts_empty() {
    let buf = Buffer::new();
    assert_eq!(buf.len(), 0);
    assert_eq!(buf.as_slice(), b"" as &[u8]);
}

#[test]
fn buffer_appends_in_order() {
    let mut buf = Buffer::new();
    buf.push_bytes(b"ab");
    buf.push_bytes(b"");
    buf.push_bytes(b"cd");
    assert_eq!(buf.as_slice(), b"abcd" as &[u8]);
    assert_eq!(buf.len(), 4);
}

#[test]
fn buffer_push_run_takes_the_given_range() {
    let mut buf = Buffer::new();
    buf.push_run(b"abcdef", 1, 4);
    buf.push_run(b"abcdef", 4, 4);
    assert_eq!(buf.as_slice(), b"bcd" as &[u8]);
}
