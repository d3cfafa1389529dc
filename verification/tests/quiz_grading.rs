use sesame::quiz::{
    answer_is_secret, grade_question, grid_prompt, is_free_input, is_grid, stores_single_answer,
    correct_count, quiz_order, text_matches, prepare_question, AnswerRow, Given, QuizAnswer,
};

fn row(id: i64, text: &str, ok: bool) -> AnswerRow {
    AnswerRow { id, text: text.to_string(), is_correct: if ok { 1 } else { 0 } }
}

// ===== Comparaisons =====

#[test]
fn exact_ignores_case_and_surrounding_space() {
    assert!(text_matches("  Chien ", "chien"));
    assert!(text_matches("ÉTÉ", "été"));
}

#[test]
fn exact_keeps_accents_significant() {
    assert!(!text_matches("ou", "où"));
}

// ===== Kinds =====

#[test]
fn kinds_sort_the_answers() {
    assert!(is_free_input("exact") && is_free_input("number"));
    assert!(!is_free_input("single") && !is_free_input("grid_cells"));
    assert!(is_grid("grid_lines") && !is_grid("multi"));
    assert!(stores_single_answer("grid_cells") && stores_single_answer("exact"));
    assert!(!stores_single_answer("multi"));
    assert!(answer_is_secret("number") && !answer_is_secret("grid_cells"));
}

#[test]
fn default_given_is_a_skipped_question() {
    match Given::default() {
        Given::Choices(v) => assert!(v.is_empty()),
        _ => panic!("choix vides attendus"),
    }
}

// ===== Grading =====

#[test]
fn choices_must_be_exactly_the_right_ones() {
    let rows = vec![row(1, "Paris", true), row(2, "Lyon", false), row(3, "Nice", true)];
    let ok = grade_question(7, "multi".into(), "Villes ?".into(), None, &Given::Choices(vec![3, 1]), &rows, false);
    assert!(ok.correct);
    assert_eq!(ok.question_id, 7);
    assert_eq!(ok.answers.len(), 3);
    assert!(ok.answers[0].was_chosen && !ok.answers[1].was_chosen && ok.answers[2].was_chosen);
    assert!(ok.given_text.is_none() && ok.grid.is_none());
    let extra = grade_question(7, "multi".into(), "Villes ?".into(), None, &Given::Choices(vec![1, 2, 3]), &rows, false);
    assert!(!extra.correct);
    let forged = grade_question(7, "single".into(), "?".into(), None, &Given::Text("1".into()), &rows, false);
    assert!(!forged.correct);
}

#[test]
fn typed_answers_are_compared_as_text_or_number() {
    let rows = vec![row(4, "Chien", true)];
    let g = grade_question(1, "exact".into(), "?".into(), Some("explication".into()), &Given::Text("  chien ".into()), &rows, false);
    assert!(g.correct);
    assert_eq!(g.given_text.as_deref(), Some("  chien "));
    assert!(g.answers[0].was_chosen && g.answers[0].is_correct);
    assert_eq!(g.explanation.as_deref(), Some("explication"));
    let blank = grade_question(1, "exact".into(), "?".into(), None, &Given::Text("   ".into()), &rows, false);
    assert!(!blank.correct && blank.given_text.is_none());
    let n = grade_question(1, "number".into(), "?".into(), None, &Given::Text("8,0".into()), &[row(2, "8", true)], true);
    assert!(n.correct);
    let none = grade_question(1, "number".into(), "?".into(), None, &Given::Text("8".into()), &[row(2, "8", false)], true);
    assert!(!none.correct);
}

#[test]
fn a_drawing_is_graded_and_reviewed() {
    let rows = vec![row(9, "4x4:c=1,1;2,2", true)];
    let g = grade_question(3, "grid_cells".into(), "Reproduis".into(), None, &Given::Grid(vec!["2,2".into(), "1,1".into()]), &rows, false);
    assert!(g.correct);
    assert_eq!(g.given_text.as_deref(), Some("4x4:c=1,1;2,2"));
    let rev = g.grid.expect("correction attendue");
    assert_eq!((rev.w, rev.h, rev.aspect.as_str()), (4, 4, "44 / 44"));
    let skipped = grade_question(3, "grid_cells".into(), "Reproduis".into(), None, &Given::default(), &rows, false);
    assert!(!skipped.correct);
    assert!(skipped.given_text.is_none());
    assert!(skipped.grid.is_some(), "le modèle reste montré");
    let broken = grade_question(3, "grid_cells".into(), "?".into(), None, &Given::Grid(vec![]), &[row(9, "4x4:e=0,0-0,1", true)], false);
    assert!(!broken.correct && broken.grid.is_none());
}

#[test]
fn grid_prompt_reads_the_model_or_skips_it() {
    let p = grid_prompt("grid_lines", "3x2:e=0,0-0,1").expect("invite attendue");
    assert_eq!((p.w, p.h, p.is_cells), (3, 2, false));
    assert_eq!(p.toggles.len(), 3 * 3 + 2 * 4 + 2 * 3 * 2);
    assert!(grid_prompt("grid_cells", "3x2:e=0,0-0,1").is_none());
    assert!(grid_prompt("grid_cells", "n'importe quoi").is_none());
}

fn options() -> Vec<QuizAnswer> {
    vec![
        QuizAnswer { id: 4, text: "Paris".to_string() },
        QuizAnswer { id: 9, text: "Lyon".to_string() },
    ]
}

#[test]
fn choice_questions_send_their_options() {
    let q = prepare_question(1, "single".into(), "Capitale ?".into(), options(), None).unwrap();
    assert_eq!(q.id, 1);
    assert_eq!(q.kind, "single");
    assert_eq!(q.statement, "Capitale ?");
    let ids: Vec<i64> = q.answers.iter().map(|a| a.id).collect();
    assert_eq!(ids, vec![4, 9]);
    assert!(q.grid.is_none());
}

#[test]
fn typed_questions_keep_their_answer_secret() {
    let q = prepare_question(2, "exact".into(), "Écris chat".into(), options(), Some("chat")).unwrap();
    assert!(q.answers.is_empty());
    assert!(q.grid.is_none());
}

#[test]
fn grid_questions_send_the_model_only() {
    let q = prepare_question(3, "grid_cells".into(), "Recopie".into(), options(), Some("4x4:c=0,0;1,1"))
        .unwrap();
    assert!(q.answers.is_empty());
    let g = q.grid.unwrap();
    assert_eq!((g.w, g.h), (4, 4));
    assert!(g.is_cells);
    assert_eq!(g.toggles.len(), 16);
}

#[test]
fn grid_questions_without_a_readable_figure_are_left_out() {
    assert!(prepare_question(5, "grid_lines".into(), "Recopie".into(), vec![], None).is_none());
    assert!(prepare_question(5, "grid_lines".into(), "Recopie".into(), vec![], Some("n'importe quoi")).is_none());
}

#[test]
fn right_answers_are_counted() {
    let rows = vec![row(1, "Paris", true), row(2, "Lyon", false)];
    let right = grade_question(1, "single".into(), "?".into(), None, &Given::Choices(vec![1]), &rows, false);
    let wrong = grade_question(2, "single".into(), "?".into(), None, &Given::Choices(vec![2]), &rows, false);
    let skipped = grade_question(3, "single".into(), "?".into(), None, &Given::default(), &rows, false);
    assert_eq!(correct_count(&[right.clone(), wrong, skipped, right]), 2);
    assert_eq!(correct_count(&[]), 0);
}

#[test]
fn a_quiz_holds_every_pick_once_in_some_order() {
    let picks = vec![vec![4, 9], vec![], vec![7], vec![1, 2, 3]];
    let mut order = quiz_order(&picks);
    assert_eq!(order.len(), 6);
    order.sort();
    assert_eq!(order, vec![1, 2, 3, 4, 7, 9]);
    assert!(quiz_order(&[]).is_empty());
}

#[test]
fn ascii_answers_fold_only_letters() {
    assert!(text_matches(" A-1 Bis", "a-1 bis "));
    assert!(!text_matches("A-1", "a-2"));
}
