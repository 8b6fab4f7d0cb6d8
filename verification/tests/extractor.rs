use rust_hero::query::{Extractor, Language};

fn rust_extractor(query: &str) -> Extractor {
    let lang = Language::Rust;
    Extractor::new(lang, lang.parse_query(query).unwrap())
}

#[test]
fn extract_from_text_finds_the_function_and_its_name() {
    let extractor = rust_extractor("(function_item (identifier) @id) @function");
    let extracted = extractor
        .extract_from_text(None, b"fn main(){println!(\"hello rust_hero\");}")
        .unwrap()
        .unwrap();
    assert_eq!(extracted.matches.len(), 2);
    assert_eq!(extracted.matches[0].name, "function");
    assert_eq!(
        extracted.matches[0].text,
        "fn main(){println!(\"hello rust_hero\");}"
    );
    assert_eq!(extracted.matches[1].name, "id");
    assert_eq!(extracted.matches[1].text, "main");
    assert_eq!((extracted.matches[1].start.row, extracted.matches[1].start.column), (0, 3));
    assert_eq!((extracted.matches[1].end.row, extracted.matches[1].end.column), (0, 7));
    assert_eq!(extracted.file, None);
    assert_eq!(extracted.file_type, "rust");
}

#[test]
fn positions_span_lines() {
    let extractor = rust_extractor("(function_item) @f");
    let text = b"\n\nunsafe fn f() {\n    g()\n}\n";
    let extracted = extractor
        .extract_from_text(Some("a.rs".to_string()), text)
        .unwrap()
        .unwrap();
    assert_eq!(extracted.file, Some("a.rs".to_string()));
    assert_eq!(extracted.matches.len(), 1);
    let m = &extracted.matches[0];
    assert_eq!(m.text, "unsafe fn f() {\n    g()\n}");
    assert_eq!((m.start.row, m.start.column, m.end.row, m.end.column), (2, 0, 4, 1));
}

#[test]
fn no_match_extracts_nothing() {
    let extractor = rust_extractor("(function_item) @f");
    assert!(extractor.extract_from_text(None, b"struct S;").unwrap().is_none());
}

#[test]
fn capture_names_follow_the_query() {
    let query = Language::Rust.parse_query("(identifier) @a (function_item) @b").unwrap();
    assert_eq!(query.capture_names(), vec!["a".to_string(), "b".to_string()]);
}
