use sesame::auth::{
    check_settings, hash_password, hex_token, login_check, parent_password_ok, random_token,
    setup_check, verify_password, LoginVerdict, SetupVerdict,
};

#[test]
fn a_set_password_is_accepted_and_others_are_not() {
    let h = hash_password("correct horse").unwrap();
    assert!(verify_password("correct horse", &h));
    assert!(!verify_password("wrong horse", &h));
    assert!(!verify_password("correct horse", "pas un hash"));
    assert!(parent_password_ok("correct horse", Some(&h)));
    assert!(!parent_password_ok("correct horse", Some("")));
    assert!(!parent_password_ok("correct horse", None));
}

#[test]
fn tokens_are_hexadecimal() {
    assert_eq!(hex_token(&[0, 15, 16, 255]), "000f10ff");
    let t = random_token();
    assert_eq!(t.len(), 64);
    assert!(t.chars().all(|c| c.is_ascii_hexdigit() && !c.is_ascii_uppercase()));
    assert_ne!(random_token(), t);
}

#[test]
fn first_password_needs_six_bytes_twice() {
    assert!(matches!(setup_check(true, "x", "y"), SetupVerdict::ToLogin));
    match setup_check(false, "abcde", "abcde") {
        SetupVerdict::Refused(m) => assert_eq!(m, "Le mot de passe doit faire au moins 6 caractères."),
        other => panic!("{other:?}"),
    }
    // Six bytes, three characters: long enough, as `str::len` counts.
    assert!(matches!(setup_check(false, "ééé", "ééé"), SetupVerdict::Accept));
    match setup_check(false, "abcdef", "abcdeg") {
        SetupVerdict::Refused(m) => assert_eq!(m, "Les deux mots de passe ne correspondent pas."),
        other => panic!("{other:?}"),
    }
    assert!(matches!(setup_check(false, "abcdef", "abcdef"), SetupVerdict::Accept));
}

#[test]
fn the_chosen_password_logs_in() {
    let h = hash_password("sésame ouvre-toi").unwrap();
    assert!(matches!(login_check("sésame ouvre-toi", Some(&h)), LoginVerdict::Accept));
    match login_check("autre chose", Some(&h)) {
        LoginVerdict::Refused(m) => assert_eq!(m, "Mot de passe incorrect."),
        other => panic!("{other:?}"),
    }
    assert!(matches!(login_check("x", None), LoginVerdict::ToSetup));
    assert!(matches!(login_check("x", Some("")), LoginVerdict::ToSetup));
}

#[test]
fn settings_are_checked_in_order() {
    assert_eq!(check_settings(0, false, 0, "x").unwrap_err(), "questions_per_test doit être ≥ 1");
    assert_eq!(check_settings(5, false, 0, "x").unwrap_err(), "seuil hors [0,100]");
    assert_eq!(check_settings(5, true, 0, "x").unwrap_err(), "la session doit durer ≥ 1 minute");
    assert_eq!(check_settings(5, true, 30, "x").unwrap_err(), "mode de verrouillage inconnu");
    assert_eq!(check_settings(5, true, 30, "overlay"), Ok(()));
    assert_eq!(check_settings(5, true, 30, "logout"), Ok(()));
}

#[test]
fn any_password_of_reasonable_length_hashes() {
    for p in ["", "a", "sésame ouvre-toi", &"x".repeat(4096)] {
        let h = hash_password(p).unwrap();
        assert!(h.starts_with('$'));
        assert!(verify_password(p, &h));
    }
}
