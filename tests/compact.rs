use ruplacer::compact::compact_changeset;
use ruplacer::diff::{split_views, Diff, DiffType};

#[test]
fn test_compact_diff_empty() {
    let change: Vec<Diff> = vec![];
    let actual = compact_changeset(&change);
    assert_eq!(actual, vec![]);
}

#[test]
fn test_compact_diff_just_one() {
    let change = vec![Diff::new_add("some stuff")];
    let actual = compact_changeset(&change);
    assert_eq!(actual, vec![Diff::new_add("some stuff")]);
}

#[test]
fn test_compact_diff_just_two() {
    let change = vec![Diff::new_add("one"), Diff::new_rem("two")];
    let actual = compact_changeset(&change);
    assert_eq!(actual, vec![Diff::new_add("one"), Diff::new_rem("two")]);
}

#[test]
fn test_compact_diff_replace_small_same_with_previous_and_next_add() {
    let change = vec![
        Diff::new_add("one"),
        Diff::new_same("_"),
        Diff::new_add("two"),
    ];
    let actual = compact_changeset(&change);
    assert_eq!(actual, vec![Diff::new_add("one_two")]);
}

#[test]
fn test_compact_diff_do_not_replace_big_same() {
    let change = vec![
        Diff::new_add("one "),
        Diff::new_same(" - and this is - "),
        Diff::new_add(" three"),
    ];
    let actual = compact_changeset(&change);
    assert_eq!(
        actual,
        vec![
            Diff::new_add("one "),
            Diff::new_same(" - and this is - "),
            Diff::new_add(" three"),
        ]
    );
}

#[test]
fn test_compact_diff_do_not_keep_skipping() {
    let change = vec![
        Diff::new_add("one"),
        Diff::new_same("_"),
        Diff::new_add("two"),
        Diff::new_add("three"),
        Diff::new_same(" - and - "),
        Diff::new_add("four"),
    ];
    let actual = compact_changeset(&change);
    assert_eq!(
        actual,
        vec![
            Diff::new_add("one_two"),
            Diff::new_add("three"),
            Diff::new_same(" - and - "),
            Diff::new_add("four"),
        ]
    );
}

#[test]
fn test_compact_diff_rem_sandwich() {
    let change = vec![
        Diff::new_rem("one"),
        Diff::new_same("_"),
        Diff::new_rem("two"),
    ];
    let actual = compact_changeset(&change);
    assert_eq!(actual, vec![Diff::new_rem("one_two")]);
}

#[test]
fn test_compact_diff_two_sandwhiches() {
    let change = vec![
        Diff::new_add("one"),
        Diff::new_same("_"),
        Diff::new_add("two"),
        Diff::new_same("_"),
        Diff::new_add("three"),
    ];

    let actual = compact_changeset(&change);
    assert_eq!(actual, vec![Diff::new_add("one_two_three")]);
}

#[test]
fn compact_merges_same_of_two_chars() {
    let change = vec![
        Diff::new_rem("one"),
        Diff::new_same("ab"),
        Diff::new_rem("two"),
    ];
    assert_eq!(compact_changeset(&change), vec![Diff::new_rem("oneabtwo")]);
}

#[test]
fn compact_keeps_same_of_three_chars() {
    let change = vec![
        Diff::new_rem("one"),
        Diff::new_same("abc"),
        Diff::new_rem("two"),
    ];
    assert_eq!(compact_changeset(&change), change);
}

#[test]
fn compact_counts_characters_not_bytes() {
    let change = vec![
        Diff::new_add("one"),
        Diff::new_same("éé"),
        Diff::new_add("two"),
    ];
    assert_eq!(compact_changeset(&change), vec![Diff::new_add("oneéétwo")]);
}

#[test]
fn compact_keeps_mixed_sandwich() {
    let change = vec![
        Diff::new_add("one"),
        Diff::new_same("_"),
        Diff::new_rem("two"),
    ];
    assert_eq!(compact_changeset(&change), change);
}

#[test]
fn compact_keeps_short_token_at_the_edges() {
    let change = vec![
        Diff::new_same("a"),
        Diff::new_add("one"),
        Diff::new_same("b"),
    ];
    assert_eq!(compact_changeset(&change), change);
}

#[test]
fn split_views_filters_by_kind() {
    let alignment = vec![
        Diff::new_same("te"),
        Diff::new_rem("s"),
        Diff::new_add("n"),
        Diff::new_same("t"),
    ];
    let (rem, add) = split_views(&alignment);
    assert_eq!(
        rem,
        vec![Diff::new_same("te"), Diff::new_rem("s"), Diff::new_same("t")]
    );
    assert_eq!(
        add,
        vec![Diff::new_same("te"), Diff::new_add("n"), Diff::new_same("t")]
    );
    assert_eq!(rem[1].diff_type(), DiffType::Rem);
    assert_eq!(rem[1].text(), "s");
}
