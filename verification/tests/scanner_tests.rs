use escape_scan::scanner::{escape, escape_str, is_in_lockstep};
use escape_scan::sink::Buffer;
use escape_scan::table::EscapeTable;

/// The usual HTML escape set: `&`, `<` and `>`; everything else is
/// copied verbatim.
fn html_table() -> EscapeTable {
    let mut t = EscapeTable::new();
    t.map_byte(b'&', b"&amp;".to_vec());
    t.map_byte(b'<', b"&lt;".to_vec());
    t.map_byte(b'>', b"&gt;".to_vec());
    t
}

fn run(t: &EscapeTable, input: &[u8]) -> Vec<u8> {
    let mut buf = Buffer::new();
    escape(input, &mut buf, t);
    buf.as_slice().to_vec()
}

/// A plain scalar reference for the `html_table` escape set.
fn escape_reference(input: &[u8]) -> Vec<u8> {
    let mut out = Vec::new();
    for &b in input {
        match b {
            b'&' => out.extend_from_slice(b"&amp;"),
            b'<' => out.extend_from_slice(b"&lt;"),
            b'>' => out.extend_from_slice(b"&gt;"),
            _ => out.push(b),
        }
    }
    out
}

#[test]
fn hello_passes_through() {
    assert_eq!(run(&html_table(), b"hello"), b"hello".to_vec());
}

#[test]
fn mixed_markup_is_escaped() {
    assert_eq!(run(&html_table(), b"<b>&amp?"), b"&lt;b&gt;&amp;amp?".to_vec());
}

#[test]
fn escape_just_past_one_block() {
    let mut input = vec![b'x'; 17];
    input[16] = b'<';
    let mut expected = vec![b'x'; 16];
    expected.extend_from_slice(b"&lt;");
    assert_eq!(run(&html_table(), &input), expected);
}

#[test]
fn ampersands_across_block_boundary() {
    let input = vec![b'&'; 32];
    let mut expected = Vec::new();
    for _ in 0..32 {
        expected.extend_from_slice(b"&amp;");
    }
    assert_eq!(run(&html_table(), &input), expected);
}

#[test]
fn empty_input_is_a_no_op() {
    assert_eq!(run(&html_table(), b""), Vec::new());
}

#[test]
fn clean_input_of_every_length_is_unchanged() {
    let t = html_table();
    for len in 0..=48usize {
        let input = vec![b'a'; len];
        assert_eq!(run(&t, &input), input);
    }
}

#[test]
fn single_byte_full_coverage() {
    let t = html_table();
    for b in 0..=255u8 {
        let out = run(&t, &[b]);
        let expected: Vec<u8> = match b {
            b'&' => b"&amp;".to_vec(),
            b'<' => b"&lt;".to_vec(),
            b'>' => b"&gt;".to_vec(),
            _ => vec![b],
        };
        assert_eq!(out, expected, "byte {}", b);
    }
}

#[test]
fn false_positive_candidates_pass_through() {
    // `"`, `#` and `'` trip the fast candidate test but are not in this
    // table, so the lookup must filter them out.
    assert_eq!(run(&html_table(), b"\"#'"), b"\"#'".to_vec());
}

#[test]
fn appends_after_existing_content() {
    let t = html_table();
    let mut buf = Buffer::new();
    escape(b"a<", &mut buf, &t);
    escape(b">b", &mut buf, &t);
    assert_eq!(buf.as_slice(), b"a&lt;&gt;b" as &[u8]);
}

#[test]
fn sweep_lengths_with_escape_at_every_offset() {
    let t = html_table();
    for len in 0..=48usize {
        for esc_at in 0..len {
            for &e in b"&<>" {
                let mut input = vec![b'a'; len];
                input[esc_at] = e;
                assert_eq!(
                    run(&t, &input),
                    escape_reference(&input),
                    "len {} offset {} byte {}",
                    len,
                    esc_at,
                    e
                );
            }
        }
    }
}

#[test]
fn sweep_lengths_fully_escaped() {
    let t = html_table();
    let cycle = b"&<a>&&b<>";
    for len in 0..=48usize {
        let input: Vec<u8> = (0..len).map(|i| cycle[i % cycle.len()]).collect();
        assert_eq!(run(&t, &input), escape_reference(&input), "len {}", len);
    }
}

#[test]
fn escape_str_matches_byte_escaping() {
    let t = html_table();
    let mut buf = Buffer::new();
    escape_str("<b>&amp?", &mut buf, &t);
    assert_eq!(buf.as_slice(), b"&lt;b&gt;&amp;amp?" as &[u8]);
}

#[test]
fn lockstep_holds_for_the_html_table() {
    assert!(is_in_lockstep(&html_table()));
    assert!(is_in_lockstep(&EscapeTable::new()));
}

#[test]
fn lockstep_fails_when_a_non_candidate_is_mapped() {
    let mut t = html_table();
    t.map_byte(b'a', b"[a]".to_vec());
    assert!(!is_in_lockstep(&t));
}

#[test]
fn escapes_straddling_every_block_boundary() {
    let t = html_table();
    // Pairs of escaped bytes at offsets 15 and 16, 31 and 32.
    let mut input = vec![b'.'; 40];
    input[15] = b'<';
    input[16] = b'>';
    input[31] = b'&';
    input[32] = b'&';
    assert_eq!(run(&t, &input), escape_reference(&input));
}
