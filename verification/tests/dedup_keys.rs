use sesame::dedup::{dedup_key, duplicate_groups, full_key, with_history, DupRow};

#[test]
fn key_ignores_case_and_spacing() {
    assert_eq!(
        dedup_key("  Combien   de pattes a une araignée ? "),
        dedup_key("combien de pattes a une araignée ?")
    );
}

#[test]
fn key_is_unicode_aware() {
    assert_eq!(dedup_key("Quelle SAISON ?"), dedup_key("quelle saison ?"));
    assert_eq!(dedup_key("ÉTÉ ou hiver ?"), dedup_key("été ou hiver ?"));
}

#[test]
fn key_keeps_genuinely_different_statements_apart() {
    assert_ne!(dedup_key("2 + 2 = ?"), dedup_key("2 + 3 = ?"));
    assert_ne!(dedup_key("ou ?"), dedup_key("où ?"));
}

#[test]
fn two_different_figures_are_not_duplicates() {
    let stmt = "Reproduis le dessin sur la grille vide.";
    assert_ne!(
        full_key("grid_cells", stmt, Some("4x4:c=0,0")),
        full_key("grid_cells", stmt, Some("4x4:c=1,1")),
    );
}

#[test]
fn the_same_figure_is_still_a_duplicate() {
    assert_eq!(
        full_key("grid_lines", "Refais le dessin.", Some("4x4:e=0,0-0,1")),
        full_key("grid_lines", "  REFAIS   le dessin. ", Some("4x4:e=0,0-0,1")),
    );
}

#[test]
fn other_kinds_still_group_on_the_statement_alone() {
    assert_eq!(
        full_key("single", "Capitale de la France ?", Some("Paris")),
        full_key("single", "Capitale de la France ?", Some("Lyon")),
    );
}

#[test]
fn key_is_the_words_joined_and_lowercased() {
    assert_eq!(dedup_key("\t Été \n  CHAUD\u{a0}? "), "été chaud ?");
    assert_eq!(dedup_key("   "), "");
}

#[test]
fn grid_key_carries_kind_statement_and_figure() {
    assert_eq!(
        full_key("grid_cells", " Refais  ", Some("4x4:c=0,0")),
        "grid_cells\u{1}refais\u{1}4x4:c=0,0"
    );
    assert_eq!(full_key("grid_cells", " Refais  ", None), "refais");
}

fn row(id: i64, statement: &str, subject: &str, kind: &str, figure: Option<&str>) -> DupRow {
    DupRow {
        id,
        statement: statement.to_string(),
        subject_name: subject.to_string(),
        kind: kind.to_string(),
        figure: figure.map(|f| f.to_string()),
    }
}

#[test]
fn duplicates_keep_the_most_recent_question() {
    let rows = vec![
        row(3, "Combien de pattes ?", "Sciences", "single", None),
        row(7, "combien   de PATTES ?", "Bio", "single", None),
        row(5, "Combien de pattes ?", "Sciences", "exact", None),
        row(9, "Autre chose ?", "Maths", "single", None),
    ];
    let groups = duplicate_groups(&rows);
    assert_eq!(groups.len(), 1);
    let g = &groups[0];
    assert_eq!(g.keep_id, 7);
    assert_eq!(g.statement, "combien   de PATTES ?");
    let ids: Vec<i64> = g.victims.iter().map(|v| v.id).collect();
    assert_eq!(ids, vec![3, 5]);
    assert_eq!(g.victims[0].subject_name, "Sciences");
    assert!(g.victims.iter().all(|v| v.history_count == 0));
}

#[test]
fn no_duplicates_no_groups() {
    let rows = vec![
        row(1, "Un ?", "A", "single", None),
        row(2, "Deux ?", "A", "single", None),
    ];
    assert!(duplicate_groups(&rows).is_empty());
    assert!(duplicate_groups(&[]).is_empty());
}

#[test]
fn grids_with_other_figures_stay_apart_in_groups() {
    let rows = vec![
        row(1, "Dessine", "A", "grid_cells", Some("2x2:c0-0")),
        row(2, "Dessine", "A", "grid_cells", Some("2x2:c1-1")),
        row(3, "Dessine", "A", "grid_cells", Some("2x2:c0-0")),
    ];
    let groups = duplicate_groups(&rows);
    assert_eq!(groups.len(), 1);
    assert_eq!(groups[0].keep_id, 3);
    assert_eq!(groups[0].victims.len(), 1);
    assert_eq!(groups[0].victims[0].id, 1);
}

#[test]
fn largest_groups_come_first_then_by_statement() {
    let rows = vec![
        row(1, "b ?", "A", "single", None),
        row(2, "b ?", "A", "single", None),
        row(3, "a ?", "A", "single", None),
        row(4, "a ?", "A", "single", None),
        row(5, "c ?", "A", "single", None),
        row(6, "c ?", "A", "single", None),
        row(7, "c ?", "A", "single", None),
    ];
    let groups = duplicate_groups(&rows);
    let order: Vec<(&str, usize)> = groups
        .iter()
        .map(|g| (g.statement.as_str(), g.victims.len()))
        .collect();
    assert_eq!(order, vec![("c ?", 2), ("a ?", 1), ("b ?", 1)]);
}

#[test]
fn the_history_of_each_question_that_goes_is_filled() {
    let rows = vec![
        row(3, "Combien ?", "Sciences", "single", None),
        row(5, "combien ?", "Maths", "single", None),
        row(7, "Combien ?", "Sciences", "single", None),
    ];
    let groups = with_history(&duplicate_groups(&rows), &[(5, 2), (3, 4), (5, 9)]);
    assert_eq!(groups.len(), 1);
    assert_eq!(groups[0].keep_id, 7);
    let seen: Vec<(i64, &str, i64)> = groups[0]
        .victims
        .iter()
        .map(|v| (v.id, v.subject_name.as_str(), v.history_count))
        .collect();
    assert_eq!(seen, vec![(3, "Sciences", 4), (5, "Maths", 2)]);
    let none = with_history(&duplicate_groups(&rows), &[]);
    assert!(none[0].victims.iter().all(|v| v.history_count == 0));
}

#[test]
fn ascii_key_folds_letters_and_keeps_digits() {
    assert_eq!(dedup_key("  Hello   WORLD 42 "), "hello world 42");
}
