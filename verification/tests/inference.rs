use rust_hero::safe::inference::{classification_inputs, pad_batch, walk_roots};
use rust_hero::safe::{show_languages, MatchText};

fn m(text: &str, start: (usize, usize), end: (usize, usize)) -> MatchText {
    MatchText {
        text: text.to_string(),
        start_row: start.0,
        start_column: start.1,
        end_row: end.0,
        end_column: end.1,
    }
}

#[test]
fn languages_are_listed_one_per_line() {
    assert_eq!(show_languages(), "rust\n");
}

#[test]
fn only_unsafe_matches_are_classified() {
    let matches = vec![
        m("fn main() {}", (0, 0), (0, 12)),
        m("unsafe fn f() { g() }", (2, 4), (2, 25)),
        m("fn h() { unsafe { g() } }", (4, 0), (6, 1)),
    ];
    let inputs = classification_inputs(&matches);
    assert_eq!(inputs.len(), 2);
    assert_eq!(inputs[0].text, " fn f() { g() }");
    assert_eq!(
        (inputs[0].start_row, inputs[0].start_column, inputs[0].end_row, inputs[0].end_column),
        (3, 5, 3, 26)
    );
    assert_eq!(inputs[1].text, "fn h() {  { g() } }");
    assert_eq!(
        (inputs[1].start_row, inputs[1].start_column, inputs[1].end_row, inputs[1].end_column),
        (5, 1, 7, 2)
    );
}

#[test]
fn replacement_matches_std_replace() {
    for text in ["unsafeunsafe  x", "unsafe", "unsafe unsafe fn", "x unsafe\ty", "ünsafe unsafe é"] {
        let inputs = classification_inputs(&vec![m(text, (0, 0), (0, 0))]);
        if text.contains("unsafe") {
            assert_eq!(inputs.len(), 1);
            assert_eq!(inputs[0].text, text.replace("unsafe ", " "));
        } else {
            assert!(inputs.is_empty());
        }
    }
}

#[test]
fn batch_is_padded_to_longest_row() {
    let (ids, masks) = pad_batch(&vec![vec![5, 6, 7], vec![8]]);
    assert_eq!(ids, vec![vec![5, 6, 7], vec![8, 0, 0]]);
    assert_eq!(masks, vec![vec![1, 1, 1], vec![1, 0, 0]]);
}

#[test]
fn single_row_is_not_padded() {
    let (ids, masks) = pad_batch(&vec![vec![0, 42, 2]]);
    assert_eq!(ids, vec![vec![0, 42, 2]]);
    assert_eq!(masks, vec![vec![1, 1, 1]]);
}

#[test]
fn walk_starts_at_first_path() {
    let paths = vec!["a".to_string(), "b".to_string(), "c".to_string()];
    let (first, rest) = walk_roots(&paths).unwrap();
    assert_eq!(first, "a");
    assert_eq!(rest, vec!["b".to_string(), "c".to_string()]);
    assert!(walk_roots(&vec![]).is_none());
}
