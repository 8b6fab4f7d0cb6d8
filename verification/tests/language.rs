use rust_hero::query::Language;

#[test]
fn to_str_reflects_from_str() {
    Language::all()
        .into_iter()
        .for_each(|lang| assert_eq!(Language::from_str(&lang.to_string()).unwrap(), lang))
}

#[test]
fn parse_query_smoke_test() {
    assert_eq!(true, Language::Rust.parse_query("(_)").is_ok());
}

#[test]
fn parse_query_problem() {
    assert_eq!(
        String::from("Query error at 1:2. Invalid node type node_that_doesnt_exist"),
        Language::Rust
            .parse_query("(node_that_doesnt_exist)")
            .unwrap_err()
            .to_string(),
    )
}

#[test]
fn all_lists_rust_once() {
    assert_eq!(Language::all(), vec![Language::Rust]);
}

#[test]
fn rust_is_named_rust() {
    assert_eq!(Language::Rust.to_string(), "rust");
    assert_eq!(Language::Rust.name_for_types_builder(), "rust");
}

#[test]
fn unknown_language_is_refused_with_the_known_ones() {
    let err = Language::from_str("python").unwrap_err();
    assert_eq!(err.input, "python");
    assert_eq!(err.to_string(), "unknown language python. Try one of: rust");
}

#[test]
fn from_str_trait_agrees() {
    let lang: Language = "rust".parse().unwrap();
    assert_eq!(lang, Language::Rust);
    assert!("Rust".parse::<Language>().is_err());
}

#[test]
fn parsed_query_keeps_its_text_and_language() {
    let query = Language::Rust.parse_query("(identifier) @id").unwrap();
    assert_eq!(query.source_text(), "(identifier) @id");
    assert_eq!(query.capture_names(), vec!["id".to_string()]);
}

#[test]
fn syntax_error_is_reported() {
    let err = Language::Rust.parse_query("(identifier").unwrap_err();
    assert!(err.starts_with("Query error at 1:"), "{}", err);
    assert_ne!(err, "(identifier");
}

#[test]
fn unknown_node_at_the_end_is_an_error() {
    assert_eq!(
        Language::Rust.parse_query("(foo").unwrap_err(),
        "Query error at 1:2. Invalid node type foo"
    );
}
