use sesame::policy::{
    budget_secs_today, consume_secs, cooldown_remaining, evaluate, grantable_minutes, open_minutes,
    schedule_status, BlockReason, GateDecision, Grant, Rules, ScheduleStatus,
};

fn rules() -> Rules {
    Rules {
        questions_per_test: 5,
        session_minutes: 30,
        daily_budget_minutes: 60,
        weekend_budget_minutes: 120,
        exam_cooldown_minutes: 10,
    }
}

fn open_window() -> ScheduleStatus {
    ScheduleStatus { in_window: true, window_left_secs: i64::MAX, next_window: None }
}

#[test]
fn weekend_has_its_own_budget() {
    assert_eq!(budget_secs_today(&rules(), false), 3600);
    assert_eq!(budget_secs_today(&rules(), true), 7200);
}

#[test]
fn grantable_is_cut_to_what_is_left_and_at_least_one_minute() {
    assert_eq!(grantable_minutes(30, 3600), 30);
    assert_eq!(grantable_minutes(30, 12 * 60 + 59), 12);
    assert_eq!(grantable_minutes(30, 20), 1);
    assert_eq!(grantable_minutes(30, 0), 1);
}

#[test]
fn parent_minutes_win_when_given() {
    assert_eq!(open_minutes(Some(45), 30, 60), 45);
    assert_eq!(open_minutes(Some(0), 30, 60), 1);
    assert_eq!(open_minutes(None, 30, 600), 10);
}

#[test]
fn cooldown_rounds_up() {
    assert_eq!(cooldown_remaining(None, 10, 1000), None);
    assert_eq!(cooldown_remaining(Some(1000), 10, 1000), Some(10));
    assert_eq!(cooldown_remaining(Some(1000), 10, 1599), Some(1));
    assert_eq!(cooldown_remaining(Some(1000), 10, 1600), None);
}

#[test]
fn consume_is_clamped() {
    assert_eq!(consume_secs(-5), 0);
    assert_eq!(consume_secs(42), 42);
    assert_eq!(consume_secs(10_000), 300);
}

#[test]
fn a_live_grant_is_worth_what_budget_and_slot_allow() {
    let g = Grant { id: 3, minutes: 30, consumed_secs: 60, bypass: 0 };
    let sched = ScheduleStatus { in_window: true, window_left_secs: 600, next_window: None };
    let (d, close) = evaluate(&rules(), sched, 3600, 1200, Some(g), None);
    assert!(matches!(d, GateDecision::Granted { remaining_secs: 600 }));
    assert_eq!(close, None);
    let parent = Grant { id: 4, minutes: 30, consumed_secs: 60, bypass: 1 };
    let sched = ScheduleStatus { in_window: false, window_left_secs: 0, next_window: None };
    let (d, _) = evaluate(&rules(), sched, 3600, 3600, Some(parent), None);
    assert!(matches!(d, GateDecision::Granted { remaining_secs: 1740 }));
}

#[test]
fn a_spent_grant_is_closed_and_the_reason_shown() {
    let g = Grant { id: 8, minutes: 10, consumed_secs: 600, bypass: 0 };
    let (d, close) = evaluate(&rules(), open_window(), 3600, 3600, Some(g), None);
    assert_eq!(close, Some(8));
    assert!(matches!(
        d,
        GateDecision::Blocked { reason: BlockReason::DailyBudgetSpent { used_min: 60, budget_min: 60 } }
    ));
}

#[test]
fn outside_the_schedule_comes_before_the_budget() {
    let sched = ScheduleStatus {
        in_window: false,
        window_left_secs: 0,
        next_window: Some("demain à 17h00".to_string()),
    };
    let (d, _) = evaluate(&rules(), sched, 3600, 9999, None, None);
    match d {
        GateDecision::Blocked { reason: BlockReason::OutsideSchedule { next_window } } => {
            assert_eq!(next_window.as_deref(), Some("demain à 17h00"))
        }
        _ => panic!("hors plage attendu"),
    }
}

#[test]
fn a_failed_quiz_imposes_a_pause_then_a_quiz_is_offered() {
    let (d, _) = evaluate(&rules(), open_window(), 3600, 0, None, Some(4));
    assert!(matches!(d, GateDecision::Blocked { reason: BlockReason::Cooldown { remaining_min: 4 } }));
    let (d, _) = evaluate(&rules(), open_window(), 3600, 3000, None, None);
    assert!(matches!(d, GateDecision::ExamAvailable { questions: 5, max_grant_minutes: 10 }));
    let no_pause = Rules { exam_cooldown_minutes: 0, ..rules() };
    let (d, _) = evaluate(&no_pause, open_window(), 3600, 0, None, Some(4));
    assert!(matches!(d, GateDecision::ExamAvailable { max_grant_minutes: 30, .. }));
}

#[test]
fn no_slot_means_no_restriction() {
    let s = schedule_status(&[], 2, 600);
    assert!(s.in_window);
    assert_eq!(s.window_left_secs, i64::MAX);
    assert!(s.next_window.is_none());
}

#[test]
fn inside_a_slot_the_latest_end_wins() {
    let slots = [(2, 900, 1020), (2, 960, 1140), (3, 0, 1440)];
    let s = schedule_status(&slots, 2, 1000);
    assert!(s.in_window);
    assert_eq!(s.window_left_secs, 140 * 60);
}

#[test]
fn the_next_opening_is_said_in_words() {
    let slots = [(2, 1020, 1140), (3, 480, 600), (5, 600, 700)];
    let today = schedule_status(&slots, 2, 600);
    assert!(!today.in_window);
    assert_eq!(today.window_left_secs, 0);
    assert_eq!(today.next_window.as_deref(), Some("aujourd'hui à 17h00"));
    let tomorrow = schedule_status(&slots, 2, 1200);
    assert_eq!(tomorrow.next_window.as_deref(), Some("demain à 08h00"));
    let later = schedule_status(&slots, 3, 700);
    assert_eq!(later.next_window.as_deref(), Some("samedi à 10h00"));
    let week = schedule_status(&[(1, 480, 500)], 1, 600);
    assert_eq!(week.next_window.as_deref(), Some("mardi à 08h00"));
}
