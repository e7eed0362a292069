use breadchunks::{header_is_superset_of, restore_code_placeholders, set_length, Chunk};

fn s(v: &str) -> Option<String> {
    Some(v.to_string())
}
fn chunk(breadcrumb: &str, text: &str) -> Chunk {
    Chunk {
        level: 1,
        header: None,
        headers: vec![None; 6],
        breadcrumb: breadcrumb.to_string(),
        text: text.to_string(),
        length: 0,
    }
}
#[test]
fn set_length_empty_breadcrumb_nonempty_text() {
    let mut c = chunk("", "hello world");
    set_length(&mut c);
    assert_eq!(c.length, 11);
}
#[test]
fn set_length_nonempty() {
    let mut c = chunk("H1", "content");
    set_length(&mut c);
    assert_eq!(c.length, 10); // "H1 content" after whitespace normalize
}
#[test]
fn set_length_breadcrumb_empty_text() {
    // Non-empty breadcrumb with empty text: separator must not be counted.
    let mut c = chunk("H1", "");
    set_length(&mut c);
    assert_eq!(c.length, 2); // breadcrumb only: "H1"
}
#[test]
fn set_length_breadcrumb_whitespace_text() {
    // Non-empty breadcrumb with whitespace-only text: text normalizes to 0,
    // so separator must not be counted.
    let mut c = chunk("H1", "   ");
    set_length(&mut c);
    assert_eq!(c.length, 2); // breadcrumb only: "H1"
}
#[test]
fn restore_zero() {
    assert_eq!(restore_code_placeholders("no code", &[]), "no code");
}
#[test]
fn restore_one() {
    let placeholder = "\u{E000}CODE_BLOCK_0\u{E000}";
    let txt = format!("A {placeholder} B");
    let r = restore_code_placeholders(&txt, &["X".to_string()]);
    assert_eq!(r, "A X B");
}
#[test]
fn restore_many() {
    let p0 = "\u{E000}CODE_BLOCK_0\u{E000}";
    let p1 = "\u{E000}CODE_BLOCK_1\u{E000}";
    let txt = format!("{p0} {p1}");
    let r = restore_code_placeholders(&txt, &["A".to_string(), "B".to_string()]);
    assert_eq!(r, "A B");
}
#[test]
fn restore_invalid_placeholder_passes_through() {
    // \u{E000}UNKNOWN\u{E000} is not a valid CODE_BLOCK_N — emitted verbatim
    let r = restore_code_placeholders("\u{E000}UNKNOWN\u{E000}", &["X".to_string()]);
    assert_eq!(r, "\u{E000}UNKNOWN\u{E000}");
}
#[test]
fn restore_lone_sentinel_passes_through() {
    // A lone \u{E000} with no closing pair is emitted verbatim
    let r = restore_code_placeholders("before\u{E000}after", &["X".to_string()]);
    assert_eq!(r, "before\u{E000}after");
}
#[test]
fn super_len_mismatch() {
    assert!(!header_is_superset_of(&[s("a")], &[s("a"), s("b")]));
}
#[test]
fn super_unequal() {
    let p = vec![s("a"), s("x"), None, None, None, None];
    let c = vec![s("a"), s("y"), None, None, None, None];
    assert!(!header_is_superset_of(&p, &c));
}
#[test]
fn super_parent_deeper() {
    let p = vec![s("a"), s("b"), None, None, None, None];
    let c = vec![s("a"), None, None, None, None, None];
    assert!(!header_is_superset_of(&p, &c));
}
#[test]
fn super_full_match() {
    let full: Vec<Option<String>> = (1..=6).map(|i| s(&i.to_string())).collect();
    assert!(header_is_superset_of(&full, &full));
}
