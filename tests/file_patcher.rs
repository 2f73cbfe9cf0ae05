use std::path::PathBuf;

use ruplacer::diff::{Diff, DiffType};
use ruplacer::file_patcher::{FilePatcher, Replacement};
use ruplacer::lines::split_lines;

fn old_to_new(line: &str) -> String {
    line.replace("old", "new")
}

fn spelled(diffs: &[Diff]) -> String {
    let mut res = String::new();
    for d in diffs {
        res.push_str(d.text());
    }
    res
}

#[test]
fn test_compute_replacements() {
    let contents = "Top: this is the top file\nTop: old is nice\nTop: the end\n";
    let file_patcher =
        FilePatcher::new(PathBuf::from("tests/data/top.txt"), contents, old_to_new);
    let replacements = file_patcher.replacements();
    assert_eq!(replacements.len(), 1);
    let actual_replacement = &replacements[0];
    assert_eq!(actual_replacement.line_no(), 2);
    let actual_new = actual_replacement.new_line().replace("\r", "");
    let actual_old = actual_replacement.old_line().replace("\r", "");
    assert_eq!(actual_new, "Top: new is nice");
    assert_eq!(actual_old, "Top: old is nice");
}

#[test]
fn test_patch_file() {
    let contents = "first line\nI say: old is nice\nlast line\n";
    let file_patcher = FilePatcher::new(PathBuf::from("foo.txt"), contents, old_to_new);
    let expected = "first line\nI say: new is nice\nlast line\n";
    assert_eq!(file_patcher.new_contents(), expected);
    assert_eq!(
        file_patcher.replacements(),
        &vec![Replacement::new(
            2,
            "I say: old is nice".to_string(),
            "I say: new is nice".to_string()
        )]
    );
    assert_eq!(file_patcher.path(), &PathBuf::from("foo.txt"));
}

#[test]
fn test_replacement_display() {
    let replacement = Replacement::new(
        1,
        "trustchain_creation: 0".to_owned(),
        "blockchain_creation: 0".to_owned(),
    );
    let (rem, add) = replacement.views();
    assert_eq!(spelled(&rem), "trustchain_creation: 0");
    assert_eq!(spelled(&add), "blockchain_creation: 0");
    assert!(rem.iter().all(|d| d.diff_type() != DiffType::Add));
    assert!(add.iter().all(|d| d.diff_type() != DiffType::Rem));
}

#[test]
fn views_of_a_small_change() {
    let replacement = Replacement::new(1, "test".to_string(), "tent".to_string());
    let (rem, add) = replacement.views();
    assert_eq!(
        rem,
        vec![Diff::new_same("te"), Diff::new_rem("s"), Diff::new_same("t")]
    );
    assert_eq!(
        add,
        vec![Diff::new_same("te"), Diff::new_add("n"), Diff::new_same("t")]
    );
}

#[test]
fn views_merge_a_short_gap() {
    let replacement = Replacement::new(1, "one_two".to_string(), "ONE_TWO".to_string());
    let (rem, add) = replacement.views();
    assert_eq!(rem, vec![Diff::new_rem("one_two")]);
    assert_eq!(add, vec![Diff::new_add("ONE_TWO")]);
}

#[test]
fn empty_file_has_no_replacement() {
    let file_patcher = FilePatcher::new(PathBuf::from("empty.txt"), "", old_to_new);
    assert!(file_patcher.replacements().is_empty());
    assert_eq!(file_patcher.new_contents(), "");
}

#[test]
fn unchanged_lines_give_back_the_text() {
    let contents = "alpha\n\nbeta\r\ngamma";
    let file_patcher = FilePatcher::new(PathBuf::from("a.txt"), contents, |l: &str| l.to_string());
    assert!(file_patcher.replacements().is_empty());
    assert_eq!(file_patcher.new_contents(), "alpha\n\nbeta\r\ngamma\n");
}

#[test]
fn patching_twice_changes_nothing_more() {
    let contents = "old\nsome old thing\nnothing\n";
    let first = FilePatcher::new(PathBuf::from("a.txt"), contents, old_to_new);
    assert_eq!(first.replacements().len(), 2);
    let second = FilePatcher::new(PathBuf::from("a.txt"), first.new_contents(), old_to_new);
    assert!(second.replacements().is_empty());
    assert_eq!(second.new_contents(), first.new_contents());
}

#[test]
fn from_lines_numbers_changed_lines() {
    let lines = vec!["a".to_string(), "b".to_string(), "c".to_string()];
    let new_lines = vec!["a".to_string(), "B".to_string(), "C".to_string()];
    let file_patcher = FilePatcher::from_lines(PathBuf::from("x"), &lines, &new_lines);
    assert_eq!(
        file_patcher.replacements(),
        &vec![
            Replacement::new(2, "b".to_string(), "B".to_string()),
            Replacement::new(3, "c".to_string(), "C".to_string()),
        ]
    );
    assert_eq!(file_patcher.new_contents(), "a\nB\nC\n");
}

#[test]
fn split_lines_keeps_empty_lines() {
    assert_eq!(split_lines("a\n\nb"), vec!["a", "", "b"]);
    assert_eq!(split_lines("a\n"), vec!["a"]);
    assert_eq!(split_lines(""), Vec::<String>::new());
    assert_eq!(split_lines("\n"), vec![""]);
}
