use rust_hero::query::order::sort_files;
use rust_hero::query::{ExtractedFile, ExtractedMatch, Point};
use std::path::PathBuf;

fn file(path: Option<&str>) -> ExtractedFile {
    ExtractedFile {
        file: path.map(|p| p.to_string()),
        file_type: "rust".to_string(),
        matches: vec![ExtractedMatch {
            name: "f".to_string(),
            text: path.unwrap_or("none").to_string(),
            start: Point { row: 0, column: 0 },
            end: Point { row: 0, column: 1 },
        }],
    }
}

#[test]
fn files_sort_as_paths_do() {
    let paths = [
        "./src/a.rs",
        "./src-x/b.rs",
        "b.rs",
        "/abs/z.rs",
        "a//b/./c.rs",
        "../up.rs",
        "a/b.rs",
        "a.rs",
        "./a/b.rs",
        "é.rs",
        "z.rs",
    ];
    let files: Vec<ExtractedFile> = paths.iter().map(|p| file(Some(p))).collect();
    let sorted: Vec<Option<String>> = sort_files(files).into_iter().map(|f| f.file).collect();
    let mut expected: Vec<&str> = paths.to_vec();
    expected.sort_by(|a, b| PathBuf::from(a).cmp(&PathBuf::from(b)));
    let expected: Vec<Option<String>> = expected.iter().map(|p| Some(p.to_string())).collect();
    assert_eq!(sorted, expected);
}

#[test]
fn no_file_comes_first_and_equal_paths_keep_their_order() {
    let mut first = file(Some("a/./b.rs"));
    first.matches[0].text = "first".to_string();
    let mut second = file(Some("a/b.rs"));
    second.matches[0].text = "second".to_string();
    let sorted = sort_files(vec![file(Some("b.rs")), first, file(None), second]);
    assert_eq!(sorted[0].file, None);
    assert_eq!(sorted[1].matches[0].text, "first");
    assert_eq!(sorted[2].matches[0].text, "second");
    assert_eq!(sorted[3].file, Some("b.rs".to_string()));
}

#[test]
fn lines_name_file_position_capture_and_text() {
    let mut f = file(Some("src/main.rs"));
    f.matches.push(ExtractedMatch {
        name: "id".to_string(),
        text: "main".to_string(),
        start: Point { row: 9, column: 3 },
        end: Point { row: 9, column: 7 },
    });
    assert_eq!(f.to_lines(), "src/main.rs:1:1:f:src/main.rs\nsrc/main.rs:10:4:id:main\n");
    assert_eq!(file(None).to_lines(), "NO FILE:1:1:f:none\n");
}
