use sesame::policy::BlockReason;
use sesame::quiz::Given;
use sesame::web::{
    blocked_message, complete_submission, cookie_child, gate_answer, granted_times, ids_csv,
    no_questions_message, parse_form, sole_child, unlock_check, FormError,
};

fn pairs(v: &[(&str, &str)]) -> Vec<(String, String)> {
    v.iter().map(|(k, x)| (k.to_string(), x.to_string())).collect()
}

#[test]
fn quiz_form_reads_ticks_and_text() {
    let p = pairs(&[("question_ids", "3, 5,9"), ("q_3", "12"), ("q_3", "14"), ("t_5", "huit"), ("q_5", "1"), ("other", "x")]);
    let (ids, given) = parse_form(&p).unwrap();
    assert_eq!(ids, vec![3, 5, 9]);
    assert_eq!(given.len(), 2);
    match &given[0] {
        (3, Given::Choices(v)) => assert_eq!(v, &vec![12, 14]),
        _ => panic!("choix de la question 3 attendus"),
    }
    match &given[1] {
        (5, Given::Text(t)) => assert_eq!(t, "huit"),
        _ => panic!("texte de la question 5 attendu"),
    }
}

#[test]
fn quiz_form_refuses_what_it_cannot_read() {
    let msg = |p: &[(&str, &str)]| match parse_form(&pairs(p)) {
        Err(FormError::Invalid(m)) => m,
        _ => panic!("erreur attendue"),
    };
    assert_eq!(msg(&[("question_ids", "1,x ")]), "invalid question_id 'x '");
    assert_eq!(msg(&[("q_a", "1")]), "invalid q_ key 'a'");
    assert_eq!(msg(&[("q_1", "b")]), "invalid answer id 'b'");
    assert_eq!(msg(&[("t_", "b")]), "invalid t_ key ''");
    assert!(matches!(parse_form(&pairs(&[("q_1", "2")])), Err(FormError::Empty)));
}

#[test]
fn lock_screen_words() {
    let m = blocked_message(&BlockReason::DailyBudgetSpent { used_min: 61, budget_min: 60 });
    assert_eq!(m.emoji, "⏳");
    assert_eq!(m.title, "C'est fini pour aujourd'hui");
    assert_eq!(
        m.detail,
        "Tu as utilisé tes 60 minutes (61 min au compteur). Un contrôle de plus n'y changera rien — à demain !"
    );
    let n = blocked_message(&BlockReason::OutsideSchedule { next_window: Some("demain à 17h00".into()) });
    assert_eq!(n.detail, "Ce n'est pas le moment d'utiliser l'ordinateur. Tu pourras revenir demain à 17h00.");
    let n = blocked_message(&BlockReason::OutsideSchedule { next_window: None });
    assert_eq!(n.detail, "Ce n'est pas le moment d'utiliser l'ordinateur.");
    let c = blocked_message(&BlockReason::Cooldown { remaining_min: 1 });
    assert_eq!(c.emoji, "🧘");
    assert!(c.detail.ends_with("réessayer dans 1 minute."));
    let c = blocked_message(&BlockReason::Cooldown { remaining_min: 5 });
    assert!(c.detail.ends_with("réessayer dans 5 minutes."));
    assert_eq!(no_questions_message().title, "Pas encore de questions pour toi");
}

#[test]
fn granted_page_rounds_minutes_up() {
    assert_eq!(granted_times(61), (2, 64));
    assert_eq!(granted_times(60), (1, 63));
    assert_eq!(ids_csv(&[4, 8, 15]), "4,8,15");
    assert_eq!(ids_csv(&[]), "");
}

#[test]
fn the_cookie_names_a_child_by_id() {
    assert_eq!(cookie_child(Some("12")), Some(12));
    assert_eq!(cookie_child(Some("douze")), None);
    assert_eq!(cookie_child(None), None);
}

#[test]
fn without_cookie_the_only_child_is_chosen() {
    assert_eq!(sole_child(1), Ok(Some(0)));
    assert_eq!(sole_child(3), Ok(None));
    assert_eq!(
        sole_child(0).unwrap_err(),
        "aucun enfant configuré — le parent doit en créer un depuis /admin/children"
    );
}

#[test]
fn only_a_passed_quiz_of_the_child_buys_time() {
    assert_eq!(unlock_check(None, 1, false).unwrap_err(), "contrôle introuvable");
    assert_eq!(unlock_check(Some((0, 1)), 1, false).unwrap_err(), "ce contrôle n'a pas été réussi");
    assert_eq!(unlock_check(Some((1, 2)), 1, false).unwrap_err(), "ce contrôle n'est pas le tien");
    assert_eq!(unlock_check(Some((1, 1)), 1, false), Ok(true));
}

#[test]
fn a_passed_quiz_is_exchanged_once_only() {
    assert_eq!(unlock_check(Some((1, 1)), 1, true), Ok(false));
    // The checks come first: an exchanged quiz of another child is still refused.
    assert_eq!(unlock_check(Some((1, 2)), 1, true).unwrap_err(), "ce contrôle n'est pas le tien");
}

#[test]
fn questions_left_out_of_the_form_count_as_skipped() {
    let given = vec![(7, Given::Text("4".to_string())), (3, Given::Choices(vec![11]))];
    let done = complete_submission(&[3, 5, 7, 9], given);
    assert_eq!(done.len(), 4);
    assert_eq!(done[0].0, 7);
    assert!(matches!(&done[0].1, Given::Text(t) if t == "4"));
    assert_eq!(done[1].0, 3);
    assert!(matches!(&done[1].1, Given::Choices(v) if v == &vec![11]));
    assert_eq!(done[2].0, 5);
    assert!(matches!(&done[2].1, Given::Choices(v) if v.is_empty()));
    assert_eq!(done[3].0, 9);
    assert!(matches!(&done[3].1, Given::Choices(v) if v.is_empty()));
}

#[test]
fn a_complete_form_is_left_as_it_is() {
    let given = vec![(1, Given::Choices(vec![2, 3]))];
    let done = complete_submission(&[1], given);
    assert_eq!(done.len(), 1);
    assert!(matches!(&done[0].1, Given::Choices(v) if v == &vec![2, 3]));
}

#[test]
fn the_door_opens_for_the_parent_or_a_granted_child() {
    let g = gate_answer(None, true, Some((4, "Léa".to_string(), 300)));
    assert!(g.unlocked);
    assert_eq!(g.child_id, None);
    assert_eq!(g.child_name.as_deref(), Some("le parent"));
    assert_eq!(g.remaining_secs, 0);
    assert_eq!(g.lock_mode, "logout");
    let g = gate_answer(Some("overlay".to_string()), false, Some((4, "Léa".to_string(), 300)));
    assert!(g.unlocked);
    assert_eq!(g.child_id, Some(4));
    assert_eq!(g.child_name.as_deref(), Some("Léa"));
    assert_eq!(g.remaining_secs, 300);
    assert_eq!(g.lock_mode, "overlay");
    let g = gate_answer(None, false, None);
    assert!(!g.unlocked);
    assert_eq!(g.child_id, None);
    assert_eq!(g.child_name, None);
}
