use rust_hero::query::{ArgValues, ConfigError, Invocation, Language, QueryFormat};

fn strings(values: &[&str]) -> Vec<String> {
    values.iter().map(|s| s.to_string()).collect()
}

fn args(queries: &[&str]) -> ArgValues {
    ArgValues {
        queries: Some(strings(queries)),
        no_gitignore: false,
        paths: Some(strings(&["."])),
        format: Some("classes".to_string()),
        sort: false,
        show_languages: false,
        position: Some((1, 1)),
    }
}

#[test]
fn format_names_are_read() {
    assert_eq!(QueryFormat::from_str("classes").unwrap(), QueryFormat::Classes);
    assert_eq!(QueryFormat::from_str("lines").unwrap(), QueryFormat::Lines);
    assert_eq!(QueryFormat::from_str("json").unwrap(), QueryFormat::Json);
    assert_eq!(QueryFormat::from_str("json-lines").unwrap(), QueryFormat::JsonLines);
    assert_eq!(QueryFormat::from_str("pretty-json").unwrap(), QueryFormat::PrettyJson);
}

#[test]
fn unknown_format_is_refused() {
    let err = QueryFormat::from_str("xml").unwrap_err();
    assert_eq!(err.to_string(), "unknown format. See --help for valid formats.");
    assert!("JSON".parse::<QueryFormat>().is_err());
}

#[test]
fn default_query_gives_one_rust_extractor() {
    let invocation = Invocation::from_args(args(&[
        "rust",
        "(function_item (identifier) @id) @function",
    ]))
    .unwrap();
    match invocation {
        Invocation::DoQuery(opts) => {
            assert_eq!(opts.extractors.len(), 1);
            assert_eq!(opts.extractors[0].language(), Language::Rust);
            assert_eq!(
                opts.extractors[0].query().source_text(),
                "(function_item (identifier) @id) @function"
            );
            assert_eq!(opts.position, vec![1, 1]);
            assert_eq!(opts.paths, vec![".".to_string()]);
            assert!(opts.git_ignore);
            assert_eq!(opts.format, QueryFormat::Classes);
            assert!(!opts.sort);
        }
        Invocation::ShowLanguages => panic!("expected a query"),
    }
}

#[test]
fn query_without_captures_gets_one() {
    match Invocation::from_args(args(&["rust", "(_)"])).unwrap() {
        Invocation::DoQuery(opts) => {
            assert_eq!(opts.extractors[0].query().source_text(), "(_)@query");
        }
        Invocation::ShowLanguages => panic!("expected a query"),
    }
}

#[test]
fn queries_of_one_language_are_joined() {
    match Invocation::from_args(args(&["rust", "(identifier) @id", "rust", "(_)"])).unwrap() {
        Invocation::DoQuery(opts) => {
            assert_eq!(opts.extractors.len(), 1);
            assert_eq!(
                opts.extractors[0].query().source_text(),
                "(identifier) @id(_)@query"
            );
        }
        Invocation::ShowLanguages => panic!("expected a query"),
    }
}

#[test]
fn unpaired_last_value_is_left_out() {
    match Invocation::from_args(args(&["rust", "(_) @all", "rust"])).unwrap() {
        Invocation::DoQuery(opts) => {
            assert_eq!(opts.extractors.len(), 1);
            assert_eq!(opts.extractors[0].query().source_text(), "(_) @all");
        }
        Invocation::ShowLanguages => panic!("expected a query"),
    }
}

#[test]
fn no_queries_give_no_extractors() {
    match Invocation::from_args(args(&[])).unwrap() {
        Invocation::DoQuery(opts) => assert!(opts.extractors.is_empty()),
        Invocation::ShowLanguages => panic!("expected a query"),
    }
}

#[test]
fn language_flag_shows_languages() {
    let mut a = args(&["rust", "(_)"]);
    a.show_languages = true;
    assert!(matches!(Invocation::from_args(a).unwrap(), Invocation::ShowLanguages));
}

#[test]
fn settings_are_taken_over() {
    let mut a = args(&["rust", "(_)"]);
    a.no_gitignore = true;
    a.sort = true;
    a.position = None;
    a.format = Some("pretty-json".to_string());
    a.paths = Some(strings(&["src"]));
    match Invocation::from_args(a).unwrap() {
        Invocation::DoQuery(opts) => {
            assert!(!opts.git_ignore);
            assert!(opts.sort);
            assert_eq!(opts.position, vec![0, 0]);
            assert_eq!(opts.format, QueryFormat::PrettyJson);
            assert_eq!(opts.paths, vec!["src".to_string()]);
        }
        Invocation::ShowLanguages => panic!("expected a query"),
    }
}

#[test]
fn missing_queries_are_an_error() {
    let mut a = args(&[]);
    a.queries = None;
    assert!(matches!(Invocation::from_args(a), Err(ConfigError::MissingQueries)));
}

#[test]
fn unknown_language_is_an_error() {
    match Invocation::from_args(args(&["python", "(_)"])) {
        Err(ConfigError::UnknownLanguage(e)) => assert_eq!(e.input, "python"),
        _ => panic!("expected an unknown language"),
    }
}

#[test]
fn invalid_query_is_an_error() {
    match Invocation::from_args(args(&["rust", "(node_that_doesnt_exist)"])) {
        Err(ConfigError::InvalidQuery(message)) => assert_eq!(
            message,
            "Query error at 1:2. Invalid node type node_that_doesnt_exist"
        ),
        _ => panic!("expected an invalid query"),
    }
}

#[test]
fn query_error_comes_before_language_flag() {
    let mut a = args(&["rust", "(node_that_doesnt_exist)"]);
    a.show_languages = true;
    assert!(matches!(Invocation::from_args(a), Err(ConfigError::InvalidQuery(_))));
}

#[test]
fn missing_paths_are_an_error() {
    let mut a = args(&["rust", "(_)"]);
    a.paths = None;
    assert!(matches!(Invocation::from_args(a), Err(ConfigError::MissingPaths)));
}

#[test]
fn missing_format_is_an_error() {
    let mut a = args(&["rust", "(_)"]);
    a.format = None;
    assert!(matches!(Invocation::from_args(a), Err(ConfigError::MissingFormat)));
}

#[test]
fn unknown_format_is_an_error() {
    let mut a = args(&["rust", "(_)"]);
    a.format = Some("xml".to_string());
    assert!(matches!(Invocation::from_args(a), Err(ConfigError::UnknownFormat(_))));
}

#[test]
fn error_texts_for_a_bad_language() {
    match Invocation::from_args(args(&["python", "(_)"])) {
        Err(e) => {
            assert_eq!(e.to_string(), "could not parse language");
            assert_eq!(e.root_cause(), "unknown language python. Try one of: rust");
        }
        Ok(_) => panic!("expected an error"),
    }
}

#[test]
fn error_texts_for_a_bad_query() {
    match Invocation::from_args(args(&["rust", "(node_that_doesnt_exist)"])) {
        Err(e) => {
            assert_eq!(e.to_string(), "could not parse query");
            assert_eq!(
                e.root_cause(),
                "Query error at 1:2. Invalid node type node_that_doesnt_exist"
            );
        }
        Ok(_) => panic!("expected an error"),
    }
}

#[test]
fn language_flag_with_bad_language_is_an_error() {
    let mut a = args(&["python", "(_)"]);
    a.show_languages = true;
    match Invocation::from_args(a) {
        Err(e) => assert_eq!(e.to_string(), "could not parse language"),
        Ok(_) => panic!("expected an error"),
    }
}

#[test]
fn error_texts_for_missing_values() {
    let mut a = args(&["rust", "(_)"]);
    a.paths = None;
    let e = Invocation::from_args(a).err().unwrap();
    assert_eq!(
        e.to_string(),
        "at least one path was required but not provided. This indicates an internal errors and you should report it!"
    );
    assert_eq!(e.root_cause(), e.to_string());
    let mut a = args(&["rust", "(_)"]);
    a.format = Some("xml".to_string());
    let e = Invocation::from_args(a).err().unwrap();
    assert_eq!(e.to_string(), "could not set format");
    assert_eq!(e.root_cause(), "unknown format. See --help for valid formats.");
    let mut a = args(&["rust", "(_)"]);
    a.format = None;
    assert_eq!(Invocation::from_args(a).err().unwrap().to_string(), "format not provided");
    let mut a = args(&[]);
    a.queries = None;
    assert_eq!(
        Invocation::from_args(a).err().unwrap().to_string(),
        "queries were required but not provided. This indicates an internal error and you should report it!"
    );
}

#[test]
fn chooser_picks_the_rust_extractor_for_rust_files() {
    match Invocation::from_args(args(&["rust", "(_)"])).unwrap() {
        Invocation::DoQuery(opts) => {
            let chooser = opts.extractor_chooser().unwrap();
            assert_eq!(chooser.extractor_for("src/main.rs"), Some(0));
            assert_eq!(chooser.extractor_for("./a/b/lib.rs"), Some(0));
            assert_eq!(chooser.extractor_for("README.md"), None);
            assert_eq!(chooser.extractor_for("src"), None);
        }
        Invocation::ShowLanguages => panic!("expected a query"),
    }
}

#[test]
fn chooser_without_extractors_chooses_nothing() {
    match Invocation::from_args(args(&[])).unwrap() {
        Invocation::DoQuery(opts) => {
            let chooser = opts.extractor_chooser().unwrap();
            assert_eq!(chooser.extractor_for("src/main.rs"), None);
        }
        Invocation::ShowLanguages => panic!("expected a query"),
    }
}
