use sesame::config::no_config_message;
use sesame::importer::{
    default_difficulty, plan_import, subject_to_create, unknown_subject_message, validate_question, ImportAnswer,
    ImportQuestion, ImportReport,
};

fn q(kind: &str, answers: &[(&str, bool)]) -> ImportQuestion {
    ImportQuestion {
        subject: "Maths".into(),
        kind: kind.into(),
        statement: "2 + 2 ?".into(),
        answers: answers.iter().map(|(t, c)| ImportAnswer { text: t.to_string(), correct: *c }).collect(),
        explanation: None,
        difficulty: default_difficulty(),
    }
}

#[test]
fn import_rules_by_kind() {
    assert!(validate_question(&q("single", &[("4", true), ("5", false)]), false).is_ok());
    assert_eq!(
        validate_question(&q("single", &[("4", true), ("5", true)]), false).unwrap_err(),
        "type 'single' exige exactement 1 réponse correcte, 2 trouvées"
    );
    assert_eq!(
        validate_question(&q("multi", &[("4", true), ("5", true)]), false).unwrap_err(),
        "type 'multi' exige au moins 1 réponse incorrecte"
    );
    assert_eq!(
        validate_question(&q("multi", &[("4", false), ("5", false)]), false).unwrap_err(),
        "type 'multi' exige au moins 1 réponse correcte"
    );
    assert_eq!(
        validate_question(&q("single", &[("4", true)]), false).unwrap_err(),
        "au moins 2 réponses requises, 1 fournies"
    );
    assert_eq!(
        validate_question(&q("exact", &[("4", true), ("5", false)]), false).unwrap_err(),
        "type 'exact' exige exactement 1 réponse (la bonne), 2 fournies"
    );
    assert_eq!(
        validate_question(&q("exact", &[("4", false)]), false).unwrap_err(),
        "type 'exact' exige que sa réponse soit marquée correcte"
    );
    assert_eq!(
        validate_question(&q("number", &[(" quatre ", true)]), false).unwrap_err(),
        "type 'number' : la réponse 'quatre' n'est pas un nombre"
    );
    assert!(validate_question(&q("number", &[("4", true)]), true).is_ok());
    assert_eq!(
        validate_question(&q("essai", &[("4", true), ("5", false)]), false).unwrap_err(),
        "type 'essai' invalide (attendu 'single', 'multi', 'exact', 'number', 'grid_cells' ou 'grid_lines')"
    );
}

#[test]
fn import_rules_common_to_all() {
    let mut blank = q("single", &[("4", true), ("5", false)]);
    blank.statement = "   ".into();
    assert_eq!(validate_question(&blank, false).unwrap_err(), "énoncé vide");
    let mut hard = q("single", &[("4", true), ("5", false)]);
    hard.difficulty = 6;
    assert_eq!(validate_question(&hard, false).unwrap_err(), "difficulté 6 hors de [1,5]");
    assert_eq!(
        validate_question(&q("single", &[("4", true), (" ", false)]), false).unwrap_err(),
        "texte de la réponse #2 vide"
    );
}

#[test]
fn missing_configuration_lists_the_places_tried() {
    let m = no_config_message(&["/a/config.toml".to_string(), "config.toml".to_string()]);
    assert!(m.starts_with("Aucun fichier de configuration trouvé. Chemins essayés :\n  - /a/config.toml\n  - config.toml\nCrée"));
}

#[test]
fn subjects_need_a_name_and_a_positive_weight() {
    assert_eq!(subject_to_create("  Maths ", true), Some("Maths".to_string()));
    assert_eq!(subject_to_create("   ", true), None);
    assert_eq!(subject_to_create("Maths", false), None);
}

#[test]
fn unknown_subjects_are_reported_as_written() {
    assert_eq!(
        unknown_subject_message(" Histoire"),
        "matière ' Histoire' non déclarée (ni dans le fichier, ni dans la base)"
    );
}

#[test]
fn questions_are_stored_trimmed() {
    let q = ImportQuestion {
        subject: " Maths ".to_string(),
        kind: "single".to_string(),
        statement: "  2+2 ? ".to_string(),
        answers: vec![
            ImportAnswer { text: " 4 ".to_string(), correct: true },
            ImportAnswer { text: "5".to_string(), correct: false },
        ],
        explanation: Some(" facile ".to_string()),
        difficulty: 2,
    };
    let t = q.tidy();
    assert_eq!(t.subject, "Maths");
    assert_eq!(t.statement, "2+2 ?");
    assert_eq!(t.answers[0].text, "4");
    assert!(t.answers[0].correct);
    assert!(!t.answers[1].correct);
    assert_eq!(t.explanation.as_deref(), Some("facile"));
    assert_eq!(t.difficulty, 2);
    assert_eq!(t.kind, "single");
}

#[test]
fn the_report_counts_what_happened() {
    let mut r = ImportReport::default();
    r.count_subject(true);
    r.count_subject(false);
    r.count_subject(true);
    r.count_imported();
    r.count_failed(3, "énoncé vide".to_string());
    assert_eq!(r.subjects_created, 2);
    assert_eq!(r.subjects_skipped, 1);
    assert_eq!(r.questions_imported, 1);
    assert_eq!(r.questions_failed, vec![(3, "énoncé vide".to_string())]);
}

fn grid_q(kind: &str, answers: &[(&str, bool)]) -> ImportQuestion {
    ImportQuestion {
        subject: "Dessin".to_string(),
        kind: kind.to_string(),
        statement: "Reproduis le dessin.".to_string(),
        answers: answers
            .iter()
            .map(|(t, c)| ImportAnswer { text: t.to_string(), correct: *c })
            .collect(),
        explanation: None,
        difficulty: 3,
    }
}

#[test]
fn grid_questions_store_their_one_model() {
    assert_eq!(validate_question(&grid_q("grid_cells", &[("4x4:c=1,1", true)]), false), Ok(()));
    assert_eq!(validate_question(&grid_q("grid_lines", &[(" 4x4:e=0,0-0,2 ", true)]), false), Ok(()));
    assert_eq!(
        validate_question(&grid_q("grid_cells", &[("4x4:c=1,1", true), ("4x4:c=0,0", false)]), false)
            .unwrap_err(),
        "type 'grid_cells' exige exactement 1 réponse (la bonne), 2 fournies"
    );
    assert_eq!(
        validate_question(&grid_q("grid_cells", &[("4x4:c=1,1", false)]), false).unwrap_err(),
        "type 'grid_cells' exige que sa réponse soit marquée correcte"
    );
    assert!(validate_question(&grid_q("grid_cells", &[("4x4:e=0,0-0,1", true)]), false)
        .unwrap_err()
        .starts_with("type 'grid_cells' : type 'grid_cells' déclaré"));
    assert_eq!(
        validate_question(&grid_q("grid_cells", &[("4x4:c=", true)]), false).unwrap_err(),
        "type 'grid_cells' : le modèle est vide : il n'y a rien à reproduire"
    );
}

#[test]
fn grid_models_are_stored_canonically() {
    let t = grid_q("grid_cells", &[(" 4X4 : c = 2,1 ; 0,0 ", true)]).tidy();
    assert_eq!(t.answers[0].text, "4x4:c=0,0;2,1");
    let t = grid_q("grid_lines", &[("4x4:e=0,2-0,0", true)]).tidy();
    assert_eq!(t.answers[0].text, "4x4:e=0,0-0,1;0,1-0,2");
}

#[test]
fn every_question_is_imported_or_refused_once() {
    let mut blank = q("single", &[("4", true), ("5", false)]);
    blank.statement = "  ".into();
    let mut elsewhere = q("single", &[("4", true), ("5", false)]);
    elsewhere.subject = "Histoire".into();
    let mut spaced = q("exact", &[(" quatre ", true)]);
    spaced.subject = " Maths ".into();
    let questions = vec![
        q("single", &[("4", true), ("5", false)]),
        blank,
        elsewhere,
        grid_q("grid_cells", &[("4x4:c=1,1", true)]),
        spaced,
    ];
    let numbers = vec![false; questions.len()];
    let known = vec![(1, "Maths".to_string()), (2, "Dessin".to_string())];
    let (go, refused) = plan_import(&questions, &numbers, &known);
    let placed: Vec<(usize, i64)> = go.iter().map(|(i, s, _)| (*i, *s)).collect();
    assert_eq!(placed, vec![(0, 1), (3, 2), (4, 1)]);
    assert_eq!(go[2].2.answers[0].text, "quatre");
    assert_eq!(go[2].2.subject, "Maths");
    assert_eq!(
        refused,
        vec![
            (1, "énoncé vide".to_string()),
            (2, "matière 'Histoire' non déclarée (ni dans le fichier, ni dans la base)".to_string()),
        ]
    );
    assert_eq!(go.len() + refused.len(), questions.len());
}
