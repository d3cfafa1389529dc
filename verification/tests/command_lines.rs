use sesame::cli::{parse_tool_args, Cli, Command, ToolArgs};
use sesame::kiosk::{
    browser_command, candidate, check_verdict, kiosk_step, Flavour, GateReply, KioskAction,
    CANDIDATE_COUNT,
};
use sesame::timer::{countdown_message, door_look, plural, timer_step, warning_step, DoorLook};

fn args(v: &[&str]) -> Vec<String> {
    v.iter().map(|s| s.to_string()).collect()
}

#[test]
fn server_command_line() {
    let c = Cli::parse(&args(&[])).unwrap();
    assert!(!c.help && c.config_path.is_none());
    assert!(matches!(c.command, Command::Server { force_admin: false }));
    let c = Cli::parse(&args(&["-c", "x.toml", "admin"])).unwrap();
    assert_eq!(c.config_path.as_deref(), Some("x.toml"));
    assert!(matches!(c.command, Command::Server { force_admin: true }));
    let c = Cli::parse(&args(&["--config=y.toml", "import", "q.json"])).unwrap();
    assert_eq!(c.config_path.as_deref(), Some("y.toml"));
    assert!(matches!(c.command, Command::Import { ref path } if path == "q.json"));
    assert!(matches!(Cli::parse(&args(&["preview", "7"])).unwrap().command, Command::Preview { count: Some(7) }));
    assert!(matches!(Cli::parse(&args(&["preview"])).unwrap().command, Command::Preview { count: None }));
    assert!(Cli::parse(&args(&["-h", "nimporte"])).unwrap().help);
    assert_eq!(Cli::parse(&args(&["--config"])).unwrap_err(), "--config attend un chemin de fichier");
    assert_eq!(Cli::parse(&args(&["-x"])).unwrap_err(), "option inconnue : -x");
    assert_eq!(Cli::parse(&args(&["import"])).unwrap_err(), "usage : sesame import <fichier.json>");
    assert_eq!(
        Cli::parse(&args(&["preview", "sept"])).unwrap_err(),
        "preview : le nombre de questions doit être un entier"
    );
    assert_eq!(Cli::parse(&args(&["jouer"])).unwrap_err(), "commande inconnue : jouer");
}

#[test]
fn tool_command_lines() {
    assert!(matches!(parse_tool_args(&args(&["--check", "-h", "-z"]), true, "AIDE"), Ok(ToolArgs::Help)));
    match parse_tool_args(&args(&["--check", "--config", "k.toml"]), true, "AIDE").unwrap() {
        ToolArgs::Run { config_path, check_only } => {
            assert_eq!(config_path.as_deref(), Some("k.toml"));
            assert!(check_only);
        }
        _ => panic!("lancement attendu"),
    }
    assert_eq!(
        parse_tool_args(&args(&["--check"]), false, "AIDE").unwrap_err(),
        "option inconnue : --check\n\nAIDE"
    );
}

#[test]
fn countdown_words() {
    assert_eq!(plural(1), "");
    assert_eq!(plural(2), "s");
    assert_eq!(countdown_message(61), "il te reste 2 minutes. Pense à sauvegarder !");
    assert_eq!(countdown_message(60), "il te reste 1 minute. Pense à sauvegarder !");
    assert_eq!(countdown_message(42), "il te reste 42 secondes. Sauvegarde vite !");
}

#[test]
fn warnings_use_the_tightest_step_once() {
    assert_eq!(warning_step(400), None);
    assert_eq!(warning_step(300), Some(300));
    assert_eq!(warning_step(45), Some(60));
    assert_eq!(warning_step(5), Some(10));
    let first = timer_step(250, Some("Maël"), None);
    assert_eq!(first.warned_below, Some(300));
    let (t, b) = first.notice.clone().unwrap();
    assert_eq!(t, "Il te reste peu de temps");
    assert_eq!(b, "Maël, il te reste 5 minutes. Pense à sauvegarder !");
    assert_eq!(first.sleep_secs, 15);
    let again = timer_step(240, Some("Maël"), first.warned_below);
    assert!(again.notice.is_none());
    let end = timer_step(0, None, Some(10));
    assert!(end.expire);
    assert_eq!(end.notice.unwrap().1, "l'enfant, c'est fini pour cette fois. On ferme…");
    assert_eq!(timer_step(30, None, Some(30)).sleep_secs, 2);
}

#[test]
fn browser_commands() {
    let c = browser_command(Some("  firefox  --kiosk "), None).unwrap();
    assert_eq!(c.argv, vec!["firefox".to_string(), "--kiosk".to_string()]);
    assert!(c.env.is_empty());
    assert_eq!(
        browser_command(Some("   "), None).unwrap_err(),
        "[kiosk] browser est vide dans la configuration"
    );
    let f = browser_command(None, Some(("firefox", Flavour::Firefox))).unwrap();
    assert_eq!(f.describe(), "MOZ_ENABLE_WAYLAND=1 firefox --kiosk --private-window");
    let ch = Flavour::Chromium.command("brave");
    assert_eq!(ch.argv.len(), 7);
    assert_eq!(ch.argv[2], "--ozone-platform=wayland");
    assert!(browser_command(None, None).unwrap_err().starts_with("aucun navigateur trouvé."));
    assert_eq!(CANDIDATE_COUNT, 7);
    assert_eq!(candidate(0).0, "chromium");
    assert_eq!(candidate(6), ("firefox-esr", Flavour::Firefox));
}

fn reply(unlocked: bool, name: Option<&str>, secs: i64) -> GateReply {
    GateReply { unlocked, child_name: name.map(|n| n.to_string()), remaining_secs: secs }
}

#[test]
fn check_opens_only_a_won_computer() {
    assert_eq!(
        check_verdict(&reply(true, Some("Léa"), 61)).unwrap(),
        "sesame-kiosk : débloqué pour Léa (2 min) — on ouvre le bureau"
    );
    assert_eq!(
        check_verdict(&reply(true, None, 60)).unwrap(),
        "sesame-kiosk : débloqué pour quelqu'un (1 min) — on ouvre le bureau"
    );
    assert_eq!(
        check_verdict(&reply(false, Some("Léa"), 600)).unwrap_err(),
        "ordinateur verrouillé — aucune concession de temps vivante"
    );
}

#[test]
fn kiosk_opens_when_won_and_relaunches_a_closed_browser() {
    match kiosk_step(Some(&reply(true, Some("Tom"), 900)), true) {
        KioskAction::Open(m) => assert_eq!(m, "sesame-kiosk : Tom a gagné 15 min — on ouvre le bureau"),
        other => panic!("{other:?}"),
    }
    assert!(matches!(kiosk_step(Some(&reply(false, None, 0)), true), KioskAction::Relaunch));
    assert!(matches!(kiosk_step(None, true), KioskAction::Relaunch));
    assert!(matches!(kiosk_step(None, false), KioskAction::Wait));
    assert!(matches!(kiosk_step(Some(&reply(false, None, 0)), false), KioskAction::Wait));
}

#[test]
fn minutes_won_round_up_without_overflow() {
    match kiosk_step(Some(&reply(true, None, i64::MAX)), false) {
        KioskAction::Open(m) => assert!(m.contains("153722867280912931 min")),
        other => panic!("{other:?}"),
    }
    match kiosk_step(Some(&reply(true, None, 0)), false) {
        KioskAction::Open(m) => assert!(m.contains(" 0 min")),
        other => panic!("{other:?}"),
    }
}

#[test]
fn the_clock_closes_on_a_shut_door_and_idles_without_a_child() {
    assert_eq!(door_look(false, Some(4)), DoorLook::Close);
    assert_eq!(door_look(false, None), DoorLook::Close);
    assert_eq!(door_look(true, None), DoorLook::Idle);
    assert_eq!(door_look(true, Some(4)), DoorLook::Count(4));
}
