use sesame::admin::{
    build_subject_options, collect_answer_pairs, difficulty_options, form_answers, group_history,
    pair_get, pair_get_opt, pair_get_or, parse_hhmm, parse_question_form, questions_sql,
    victim_label, AdminAuth, AdminRedirect, HistoryRow,
};
use sesame::admin::{
    back_to_questions, batch_difficulty, batch_done_message, check_child_form, check_new_child,
    child_avatar, clock, name_taken_message, read_schedule_form, values_in, weekday_name,
    check_grant_minutes, child_options, form_slots, format_ts, purge_message, ts_shown, ChildForm,
};
use sesame::config::Config;

fn pairs(v: &[(&str, &str)]) -> Vec<(String, String)> {
    v.iter().map(|(k, x)| (k.to_string(), x.to_string())).collect()
}

#[test]
fn pair_lookup_takes_the_first() {
    let p = pairs(&[("a", "1"), ("b", ""), ("a", "2")]);
    assert_eq!(pair_get(&p, "a"), "1");
    assert_eq!(pair_get(&p, "z"), "");
    assert_eq!(pair_get_or(&p, "b", "3"), "3");
    assert_eq!(pair_get_or(&p, "a", "3"), "1");
    assert_eq!(pair_get_opt(&p, "b"), None);
    assert_eq!(pair_get_opt(&p, "a").as_deref(), Some("1"));
}

#[test]
fn hhmm_reads_times_of_day() {
    assert_eq!(parse_hhmm(" 17:30 "), Some(1050));
    assert_eq!(parse_hhmm("24:00"), Some(1440));
    assert_eq!(parse_hhmm("24:01"), None);
    assert_eq!(parse_hhmm("7:60"), None);
    assert_eq!(parse_hhmm("1730"), None);
    assert_eq!(parse_hhmm("aa:10"), None);
}

#[test]
fn answer_slots_come_in_order() {
    let p = pairs(&[
        ("ans_2_text", "deux"),
        ("ans_1_text", "un"),
        ("ans_2_correct", "on"),
        ("ans_2_text", "DEUX"),
        ("ans_7_text", "sept"),
        ("ans_x_text", "?"),
    ]);
    let slots = collect_answer_pairs(&p);
    assert_eq!(slots.len(), 6);
    assert_eq!(slots[0], ("un".to_string(), false));
    assert_eq!(slots[1], ("DEUX".to_string(), true));
    assert_eq!(slots[2], (String::new(), false));
    let kept = form_answers(&pairs(&[("ans_3_text", "  trois "), ("ans_1_text", " ")]));
    assert_eq!(kept, vec![("trois".to_string(), false)]);
}

#[test]
fn question_form_checks_each_rule() {
    let base = [("statement", " Capitale ? "), ("subject_id", "4"), ("kind", "single"), ("difficulty", "")];
    let mut ok = pairs(&base);
    ok.extend(pairs(&[("ans_1_text", "Paris"), ("ans_1_correct", "1"), ("ans_2_text", "Lyon")]));
    let q = parse_question_form(&ok, false).unwrap();
    assert_eq!((q.subject_id, q.kind.as_str(), q.statement.as_str(), q.difficulty), (4, "single", "Capitale ?", 3));
    assert_eq!(q.answers.len(), 2);
    assert!(q.explanation.is_none());

    let empty = pairs(&[("statement", "  ")]);
    assert_eq!(parse_question_form(&empty, false).unwrap_err(), "L'énoncé ne peut pas être vide.");
    let no_subject = pairs(&[("statement", "x"), ("subject_id", "")]);
    assert_eq!(parse_question_form(&no_subject, false).unwrap_err(), "Choisis une matière.");
    let bad_kind = pairs(&[("statement", "x"), ("subject_id", "1"), ("kind", "dessin")]);
    assert_eq!(parse_question_form(&bad_kind, false).unwrap_err(), "Type invalide (single, multi, exact, number, grid_cells ou grid_lines).");
    let bad_level = pairs(&[("statement", "x"), ("subject_id", "1"), ("kind", "multi"), ("difficulty", "9")]);
    assert_eq!(parse_question_form(&bad_level, false).unwrap_err(), "La difficulté doit être entre 1 et 5.");
    let one = pairs(&[("statement", "x"), ("subject_id", "1"), ("kind", "multi"), ("ans_1_text", "a"), ("ans_1_correct", "1")]);
    assert_eq!(parse_question_form(&one, false).unwrap_err(), "Au moins 2 réponses non vides sont requises.");
    let single_two = pairs(&[("statement", "x"), ("subject_id", "1"), ("kind", "single"), ("ans_1_text", "a"), ("ans_1_correct", "1"), ("ans_2_text", "b"), ("ans_2_correct", "1")]);
    assert_eq!(parse_question_form(&single_two, false).unwrap_err(), "Type 'single' exige exactement 1 réponse correcte (trouvé 2).");
    let multi_all = pairs(&[("statement", "x"), ("subject_id", "1"), ("kind", "multi"), ("ans_1_text", "a"), ("ans_1_correct", "1"), ("ans_2_text", "b"), ("ans_2_correct", "1")]);
    assert_eq!(parse_question_form(&multi_all, false).unwrap_err(), "Type 'multi' exige au moins 1 correcte ET 1 incorrecte.");
    let number = pairs(&[("statement", "x"), ("subject_id", "1"), ("kind", "number"), ("ans_1_text", " huit "), ("ans_1_correct", "1")]);
    assert_eq!(parse_question_form(&number, false).unwrap_err(), "Type 'number' : « huit » n'est pas un nombre.");
    assert!(parse_question_form(&number, true).is_ok());
    let exact_two = pairs(&[("statement", "x"), ("subject_id", "1"), ("kind", "exact"), ("ans_1_text", "a"), ("ans_2_text", "b")]);
    assert_eq!(
        parse_question_form(&exact_two, false).unwrap_err(),
        "Type 'exact' : remplis UNE seule réponse (la bonne) et coche « correcte »."
    );
}

#[test]
fn history_rows_group_by_question() {
    let r = |q: i64, st: &str, t: &str, was: i64, ok: i64| HistoryRow {
        question_id: q,
        kind: "single".to_string(),
        statement: st.to_string(),
        answer_text: t.to_string(),
        was_chosen: was,
        is_correct: ok,
    };
    let rows = vec![r(1, "A ?", "a1", 1, 1), r(1, "A ?", "a2", 0, 0), r(2, "B ?", "b1", 1, 0), r(2, "B ?", "b2", 0, 1)];
    let g = group_history(&rows);
    assert_eq!(g.len(), 2);
    assert_eq!((g[0].statement.as_str(), g[0].answers.len(), g[0].correct_overall), ("A ?", 2, true));
    assert_eq!((g[1].statement.as_str(), g[1].correct_overall), ("B ?", false));
    assert!(group_history(&[]).is_empty());
}

#[test]
fn questions_list_pieces() {
    assert!(questions_sql(false, false).ends_with("LEFT JOIN answers a ON a.question_id = q.id GROUP BY q.id ORDER BY q.id DESC"));
    assert!(questions_sql(true, true).contains(" WHERE q.subject_id = ? AND q.difficulty = ? GROUP BY"));
    assert!(questions_sql(false, true).contains(" WHERE q.difficulty = ? GROUP BY"));
    let d = difficulty_options(Some(3));
    assert_eq!(d, vec![(1, false), (2, false), (3, true), (4, false), (5, false)]);
    assert_eq!(victim_label(412, "Sciences", 0), "#412 (Sciences)");
    assert_eq!(victim_label(98, "Sciences", 3), "#98 (Sciences, 3 contrôle(s))");
    let o = build_subject_options(vec![(1, "Maths".into()), (2, "Français".into())], Some(2));
    assert!(!o[0].selected && o[1].selected && o[1].name == "Français");
}

#[test]
fn only_a_live_session_enters_the_admin() {
    assert!(AdminAuth::let_in(true, Some(true)).is_some());
    assert!(AdminAuth::let_in(true, Some(false)).is_none());
    assert!(AdminAuth::let_in(true, None).is_none());
    assert!(AdminAuth::let_in(false, Some(true)).is_none());
}

#[test]
fn refused_requests_go_to_login_or_setup() {
    assert_eq!(AdminAuth::refusal(Some(true)), AdminRedirect::Login);
    assert_eq!(AdminAuth::refusal(Some(false)), AdminRedirect::Setup);
    assert_eq!(AdminAuth::refusal(None), AdminRedirect::Failure);
    assert_eq!(AdminRedirect::Login.target(), Some("/admin/login"));
    assert_eq!(AdminRedirect::Setup.target(), Some("/admin/setup"));
    assert_eq!(AdminRedirect::Failure.target(), None);
}

#[test]
fn the_first_existing_config_is_read() {
    let c = vec!["/home/a/.config/sesame/config.toml".to_string(), "config.toml".to_string()];
    assert_eq!(Config::load_default(&c, &[false, true]), Ok(1));
    assert_eq!(Config::load_default(&c, &[true, true]), Ok(0));
    let err = Config::load_default(&c, &[false, false]).unwrap_err();
    assert_eq!(
        err,
        "Aucun fichier de configuration trouvé. Chemins essayés :\n  - /home/a/.config/sesame/config.toml\n  - config.toml\nCrée le fichier dans ~/.config/sesame/config.toml, lance la commande depuis le dossier du projet, ou passe --config <fichier>."
    );
}

fn child_form() -> ChildForm {
    ChildForm {
        name: "  Léa ".to_string(),
        avatar: " ".to_string(),
        difficulty_min: 1,
        difficulty_max: 3,
        questions_per_test: 5,
        threshold_in_range: true,
        session_minutes: 30,
        daily_budget_minutes: 60,
        weekend_budget_minutes: 120,
        exam_cooldown_minutes: 0,
    }
}

#[test]
fn child_form_keeps_trimmed_name_and_default_avatar() {
    assert_eq!(check_child_form(&child_form()), Ok(("Léa".to_string(), "🙂".to_string())));
    assert_eq!(child_avatar(" 🐱 "), "🐱");
}

#[test]
fn child_form_refusals_in_order() {
    let mut f = child_form();
    f.name = "   ".into();
    f.difficulty_min = 9;
    assert_eq!(check_child_form(&f).unwrap_err(), "le prénom ne peut pas être vide");
    let mut f = child_form();
    f.difficulty_min = 4;
    assert_eq!(check_child_form(&f).unwrap_err(), "plage de difficulté invalide (1 ≤ min ≤ max ≤ 5)");
    let mut f = child_form();
    f.questions_per_test = 0;
    assert_eq!(check_child_form(&f).unwrap_err(), "au moins 1 question par contrôle");
    let mut f = child_form();
    f.threshold_in_range = false;
    assert_eq!(check_child_form(&f).unwrap_err(), "seuil hors [0,100]");
    let mut f = child_form();
    f.session_minutes = 0;
    assert_eq!(check_child_form(&f).unwrap_err(), "la session doit durer ≥ 1 minute");
    let mut f = child_form();
    f.weekend_budget_minutes = -1;
    assert_eq!(check_child_form(&f).unwrap_err(), "les budgets ne peuvent pas être négatifs");
}

#[test]
fn new_child_needs_a_name() {
    assert_eq!(check_new_child(" Tom ", "🦊"), Ok(("Tom".to_string(), "🦊".to_string())));
    assert_eq!(check_new_child(" ", "🦊").unwrap_err(), "le prénom ne peut pas être vide");
    assert_eq!(name_taken_message("Tom"), "« Tom » existe déjà");
}

#[test]
fn schedule_form_reads_days_and_hours() {
    let p = pairs(&[("day", "0"), ("day", "9"), ("day", "x"), ("day", "6"), ("start", "16:30"), ("end", "18:00")]);
    assert_eq!(read_schedule_form(&p), Ok((vec![0, 6], 990, 1080)));
    let p = pairs(&[("start", "16:30"), ("end", "18:00")]);
    assert_eq!(read_schedule_form(&p).unwrap_err(), "coche au moins un jour");
    let p = pairs(&[("day", "1"), ("start", "25:00"), ("end", "18:00")]);
    assert_eq!(read_schedule_form(&p).unwrap_err(), "heure de début invalide (HH:MM)");
    let p = pairs(&[("day", "1"), ("start", "10:00"), ("end", "")]);
    assert_eq!(read_schedule_form(&p).unwrap_err(), "heure de fin invalide (HH:MM)");
    let p = pairs(&[("day", "1"), ("start", "18:00"), ("end", "18:00")]);
    assert_eq!(read_schedule_form(&p).unwrap_err(), "le début doit précéder la fin");
}

#[test]
fn schedules_are_shown_in_french_and_clock_time() {
    assert_eq!(weekday_name(0), "lundi");
    assert_eq!(weekday_name(6), "dimanche");
    assert_eq!(weekday_name(42), "dimanche");
    assert_eq!(weekday_name(-3), "lundi");
    assert_eq!(clock(990), "16:30");
    assert_eq!(clock(65), "01:05");
    assert_eq!(clock(1440), "24:00");
}

#[test]
fn difficulty_batch_reads_difficulty_ids_and_way_back() {
    let p = pairs(&[("difficulty", "3"), ("ids", "4"), ("ids", "z"), ("ids", "7"), ("filter_subject", "2"), ("filter_difficulty", "")]);
    assert_eq!(batch_difficulty(&p), Ok(3));
    assert_eq!(values_in(&p, "ids", i64::MIN, i64::MAX), vec![4, 7]);
    assert_eq!(back_to_questions(&p, "ok"), "/admin/questions?subject=2&msg=ok");
    assert_eq!(batch_difficulty(&pairs(&[("difficulty", "six")])).unwrap_err(), "difficulté invalide");
    assert_eq!(batch_difficulty(&pairs(&[("difficulty", "6")])).unwrap_err(), "la difficulté doit être entre 1 et 5");
    assert_eq!(batch_done_message(2, 3), "2+question(s)+notée(s)+en+difficulté+3");
    assert_eq!(back_to_questions(&pairs(&[]), "x"), "/admin/questions?msg=x");
}

#[test]
fn history_times_are_utc_minutes() {
    assert_eq!(format_ts(0), "1970-01-01 00:00");
    assert_eq!(format_ts(1431648000), "2015-05-15 00:00");
    assert_eq!(format_ts(i64::MAX), i64::MAX.to_string());
    assert_eq!(ts_shown(None, -5), "-5");
    assert_eq!(ts_shown(Some("2001-09-09 01:46".to_string()), 1), "2001-09-09 01:46");
}

#[test]
fn history_filter_lists_children_with_avatar() {
    let rows = vec![(1, "🦊".to_string(), "Tom".to_string()), (2, "🐱".to_string(), "Léa".to_string())];
    let o = child_options(&rows, Some(2));
    assert_eq!(o.len(), 2);
    assert_eq!(o[0].label, "🦊 Tom");
    assert!(!o[0].selected);
    assert!(o[1].selected);
    assert_eq!(o[1].id, 2);
}

#[test]
fn question_form_shows_six_slots_at_least() {
    let rows = vec![("4".to_string(), 1), ("5".to_string(), 0)];
    let s = form_slots(&rows);
    assert_eq!(s.len(), 6);
    assert_eq!(s[0], ("4".to_string(), true));
    assert_eq!(s[1], ("5".to_string(), false));
    assert!(s[2..].iter().all(|(t, c)| t.is_empty() && !c));
    let many: Vec<(String, i64)> = (0..8).map(|i| (i.to_string(), 0)).collect();
    assert_eq!(form_slots(&many).len(), 8);
}

#[test]
fn parent_grants_are_one_to_six_hundred_minutes() {
    assert_eq!(check_grant_minutes(1), Ok(()));
    assert_eq!(check_grant_minutes(600), Ok(()));
    assert_eq!(check_grant_minutes(0).unwrap_err(), "minutes hors de [1, 600]");
    assert_eq!(check_grant_minutes(601).unwrap_err(), "minutes hors de [1, 600]");
}

#[test]
fn purge_reports_what_it_did() {
    assert_eq!(
        purge_message(3, 2, 5),
        "3+doublon(s)+supprimé(s)+dans+2+groupe(s)+—+5+ligne(s)+d'historique+réaffectée(s)"
    );
}

#[test]
fn question_form_takes_grid_models() {
    let base = [("statement", "Recopie"), ("subject_id", "2"), ("kind", "grid_cells")];
    let mut ok = pairs(&base);
    ok.extend(pairs(&[("ans_1_text", " 4x4:c=2,1;0,0 "), ("ans_1_correct", "1")]));
    let q = parse_question_form(&ok, false).unwrap();
    assert_eq!(q.kind, "grid_cells");
    assert_eq!(q.answers, vec![("4x4:c=0,0;2,1".to_string(), true)]);

    let mut two = pairs(&base);
    two.extend(pairs(&[("ans_1_text", "4x4:c=1,1"), ("ans_1_correct", "1"), ("ans_2_text", "4x4:c=0,0")]));
    assert_eq!(
        parse_question_form(&two, false).unwrap_err(),
        "Type 'grid_cells' : remplis UNE seule réponse (la bonne) et coche « correcte »."
    );
    let mut empty = pairs(&base);
    empty.extend(pairs(&[("ans_1_text", "4x4:c="), ("ans_1_correct", "1")]));
    assert_eq!(
        parse_question_form(&empty, false).unwrap_err(),
        "Type 'grid_cells' : le modèle est vide : il n'y a rien à reproduire"
    );
}
