//! The decision engine: may this child use the computer now?
//!
//! This is the single source of truth: the boot kiosk, the lock screen, the
//! timer and the API all ask it. The caller gathers the facts (the child's
//! rules, the schedule, the seconds used today, the live grant, the last
//! failed quiz); the decision is a function of them.
//!
//! Time is never measured here from the system clock: used seconds are what
//! the timer reported, measured monotonically on its side.

use vstd::prelude::*;

use crate::text::{pad2_text, push_pad2, push_str, string_of, tdiv, trem};

verus! {

/// What the decision reads of a child.
#[derive(Debug, Clone, Copy)]
pub struct Rules {
    pub questions_per_test: i64,
    /// Length of the session that a passed quiz grants.
    pub session_minutes: i64,
    pub daily_budget_minutes: i64,
    pub weekend_budget_minutes: i64,
    /// Pause after a failed quiz; `0` for none.
    pub exam_cooldown_minutes: i64,
}

/// A grant of time: opened by a passed quiz, or by a parent (`bypass`).
#[derive(Debug, Clone, Copy)]
pub struct Grant {
    pub id: i64,
    pub minutes: i64,
    pub consumed_secs: i64,
    /// `1`: granted by a parent, above the budget and the schedule.
    pub bypass: i64,
}

#[derive(Debug, Clone)]
pub enum GateDecision {
    /// The child has live time: the computer is theirs.
    Granted { remaining_secs: i64 },
    /// No time, but it can be earned: a quiz is waiting.
    ExamAvailable {
        questions: i64,
        /// What a passed quiz would grant NOW.
        max_grant_minutes: i64,
    },
    /// The child cannot even try. The reason IS the screen shown.
    Blocked { reason: BlockReason },
}

#[derive(Debug, Clone)]
pub enum BlockReason {
    /// Today's budget is spent.
    DailyBudgetSpent { used_min: i64, budget_min: i64 },
    /// Outside the allowed hours; `next_window` is already in words.
    OutsideSchedule { next_window: Option<String> },
    /// A quiz failed less than the cooldown ago.
    Cooldown { remaining_min: i64 },
}

/// Where the child stands with respect to their schedule.
#[derive(Debug, Clone)]
pub struct ScheduleStatus {
    /// True when no slot is set (no restriction) or when inside a slot.
    pub in_window: bool,
    /// Seconds until the end of the current slot; `i64::MAX` without slots.
    pub window_left_secs: i64,
    /// The next opening, in words (« demain à 17h00 »).
    pub next_window: Option<String>,
}

/// One allowed slot: `(weekday, start_min, end_min)`, the weekday counted from
/// Monday = 0, the minutes from midnight.
pub type Slot = (i64, i64, i64);

// ===== Budget and grants ======================================================

pub open spec fn max_int(a: int, b: int) -> int {
    if a >= b {
        a
    } else {
        b
    }
}

pub open spec fn min_int(a: int, b: int) -> int {
    if a <= b {
        a
    } else {
        b
    }
}

pub open spec fn budget_minutes(rules: Rules, weekend: bool) -> int {
    if weekend {
        rules.weekend_budget_minutes as int
    } else {
        rules.daily_budget_minutes as int
    }
}

/// Today's budget in seconds; Saturday and Sunday have their own.
pub fn budget_secs_today(rules: &Rules, weekend: bool) -> (r: i64)
    requires
        i64::MIN <= budget_minutes(*rules, weekend) * 60 <= i64::MAX,
    ensures
        r == budget_minutes(*rules, weekend) * 60,
{
    let minutes: i64 = if weekend {
        rules.weekend_budget_minutes
    } else {
        rules.daily_budget_minutes
    };
    minutes * 60
}

/// What a passed quiz can grant: the session length, cut down to what is
/// left (in whole minutes), and at least one minute.
pub open spec fn grantable(session_minutes: int, left_secs: int) -> int {
    max_int(min_int(session_minutes, tdiv(left_secs, 60)), 1)
}

pub fn grantable_minutes(session_minutes: i64, left_secs: i64) -> (r: i64)
    ensures
        r == grantable(session_minutes as int, left_secs as int),
        r >= 1,
        session_minutes >= 1 ==> r <= session_minutes,
        left_secs >= 60 ==> r <= left_secs / 60,
{
    let by_left: i64 = left_secs / 60;
    let m: i64 = if session_minutes <= by_left {
        session_minutes
    } else {
        by_left
    };
    if m >= 1 {
        m
    } else {
        1
    }
}

/// The minutes of a grant being opened: the parent's figure, at least one
/// minute, or else what a passed quiz can grant.
pub fn open_minutes(minutes_override: Option<i64>, session_minutes: i64, left_secs: i64) -> (r: i64)
    ensures
        r >= 1,
        minutes_override matches Some(m) ==> r == max_int(m as int, 1),
        minutes_override is None ==> r == grantable(session_minutes as int, left_secs as int),
{
    match minutes_override {
        Some(m) => if m >= 1 {
            m
        } else {
            1
        },
        None => grantable_minutes(session_minutes, left_secs),
    }
}

/// Minutes of pause left after the last FAILED quiz, rounded up, or `None`
/// when the pause is over (or nothing ever failed).
pub open spec fn cooldown_left(failed_at: Option<i64>, cooldown_minutes: i64, now: i64) -> Option<
    int,
> {
    match failed_at {
        None => None,
        Some(f) => {
            let until = f + cooldown_minutes * 60;
            if now >= until {
                None
            } else {
                Some(tdiv(until - now + 59, 60))
            }
        },
    }
}

pub fn cooldown_remaining(failed_at: Option<i64>, cooldown_minutes: i64, now: i64) -> (r: Option<
    i64,
>)
    requires
        failed_at matches Some(f) ==> i64::MIN <= cooldown_minutes * 60 <= i64::MAX && i64::MIN
            <= f + cooldown_minutes * 60 <= i64::MAX - 59 && i64::MIN
            <= f + cooldown_minutes * 60 - now + 59 <= i64::MAX,
    ensures
        r matches Some(m) ==> cooldown_left(failed_at, cooldown_minutes, now) == Some(m as int),
        r is None ==> cooldown_left(failed_at, cooldown_minutes, now) is None,
{
    match failed_at {
        None => None,
        Some(f) => {
            let until: i64 = f + cooldown_minutes * 60;
            if now >= until {
                None
            } else {
                Some((until - now + 59) / 60)
            }
        },
    }
}

/// A pause announced in whole minutes is never shorter than the pause left:
/// « 1 minute » while seconds remain, and never a minute too many.
pub proof fn lemma_cooldown_rounds_up(failed_at: Option<i64>, cooldown_minutes: i64, now: i64)
    ensures
        cooldown_left(failed_at, cooldown_minutes, now) matches Some(m) ==> {
            let left = failed_at.unwrap() + cooldown_minutes * 60 - now;
            &&& m >= 1
            &&& (m - 1) * 60 < left <= m * 60
        },
{
}

/// The seconds that one report of the timer may count: between 0 and 300, so
/// that a client (or a bug) can neither burn the day at once nor credit it.
pub fn consume_secs(secs: i64) -> (r: i64)
    ensures
        0 <= r <= 300,
        0 <= secs <= 300 ==> r == secs,
        secs < 0 ==> r == 0,
        secs > 300 ==> r == 300,
{
    if secs < 0 {
        0
    } else if secs > 300 {
        300
    } else {
        secs
    }
}

// ===== The decision ===========================================================

/// The decision, as values.
pub enum GateView {
    Granted(int),
    ExamAvailable(int),
    OutsideSchedule,
    DailyBudgetSpent(int, int),
    Cooldown(int),
}

/// What a live grant is still worth: its own time left, cut down to today's
/// budget and to the current slot unless a parent granted it.
pub open spec fn grant_worth(g: Grant, budget_left: int, window_left: int) -> int {
    let own = max_int(g.minutes * 60 - g.consumed_secs, 0);
    if g.bypass == 1 {
        own
    } else {
        min_int(own, min_int(budget_left, window_left))
    }
}

pub open spec fn budget_left_of(budget_secs: i64, used_secs: i64) -> int {
    max_int(budget_secs - used_secs, 0)
}

/// The decision: a live grant with time left wins; otherwise, in this order,
/// outside the schedule, budget spent, a pause after a failed quiz; otherwise a
/// quiz is offered.
pub open spec fn gate(
    rules: Rules,
    in_window: bool,
    window_left: i64,
    budget_secs: i64,
    used_secs: i64,
    grant: Option<Grant>,
    cooldown: Option<i64>,
) -> GateView {
    let budget_left = budget_left_of(budget_secs, used_secs);
    if grant matches Some(g) && grant_worth(g, budget_left, window_left as int) > 0 {
        GateView::Granted(grant_worth(grant.unwrap(), budget_left, window_left as int))
    } else if !in_window {
        GateView::OutsideSchedule
    } else if budget_left <= 0 {
        GateView::DailyBudgetSpent(tdiv(used_secs as int, 60), tdiv(budget_secs as int, 60))
    } else if rules.exam_cooldown_minutes > 0 && cooldown is Some {
        GateView::Cooldown(cooldown.unwrap() as int)
    } else {
        GateView::ExamAvailable(
            grantable(rules.session_minutes as int, min_int(budget_left, window_left as int)),
        )
    }
}

/// The grant to close: a live grant that is worth nothing any more (its time,
/// the budget or the slot is spent).
pub open spec fn grant_to_close(
    window_left: i64,
    budget_secs: i64,
    used_secs: i64,
    grant: Option<Grant>,
) -> Option<i64> {
    match grant {
        Some(g) => if grant_worth(g, budget_left_of(budget_secs, used_secs), window_left as int)
            <= 0 {
            Some(g.id)
        } else {
            None
        },
        None => None,
    }
}

pub open spec fn decision_is(d: GateDecision, v: GateView, rules: Rules, next_window: Option<String>) -> bool {
    match v {
        GateView::Granted(s) => d matches GateDecision::Granted { remaining_secs } && remaining_secs
            == s,
        GateView::ExamAvailable(m) => d matches GateDecision::ExamAvailable {
            questions,
            max_grant_minutes,
        } && questions == rules.questions_per_test && max_grant_minutes == m,
        GateView::OutsideSchedule => d matches GateDecision::Blocked {
            reason: BlockReason::OutsideSchedule { next_window: n },
        } && n == next_window,
        GateView::DailyBudgetSpent(u, b) => d matches GateDecision::Blocked {
            reason: BlockReason::DailyBudgetSpent { used_min, budget_min },
        } && used_min == u && budget_min == b,
        GateView::Cooldown(m) => d matches GateDecision::Blocked {
            reason: BlockReason::Cooldown { remaining_min },
        } && remaining_min == m,
    }
}

/// The arithmetic of a decision fits in an `i64`.
pub open spec fn decidable(budget_secs: i64, used_secs: i64, grant: Option<Grant>) -> bool {
    &&& i64::MIN <= budget_secs - used_secs <= i64::MAX
    &&& grant matches Some(g) ==> i64::MIN <= g.minutes * 60 <= i64::MAX && i64::MIN <= g.minutes
        * 60 - g.consumed_secs <= i64::MAX
}

/// Decides for this child, now. Returns the decision, and the id of a live
/// grant that is spent and must be closed.
pub fn evaluate(
    rules: &Rules,
    sched: ScheduleStatus,
    budget_secs: i64,
    used_secs: i64,
    grant: Option<Grant>,
    cooldown: Option<i64>,
) -> (r: (GateDecision, Option<i64>))
    requires
        decidable(budget_secs, used_secs, grant),
    ensures
        decision_is(
            r.0,
            gate(
                *rules,
                sched.in_window,
                sched.window_left_secs,
                budget_secs,
                used_secs,
                grant,
                cooldown,
            ),
            *rules,
            sched.next_window,
        ),
        r.1 == grant_to_close(sched.window_left_secs, budget_secs, used_secs, grant),
{
    let diff: i64 = budget_secs - used_secs;
    let budget_left: i64 = if diff > 0 {
        diff
    } else {
        0
    };
    let mut close: Option<i64> = None;
    if let Some(g) = grant {
        let own_raw: i64 = g.minutes * 60 - g.consumed_secs;
        let own: i64 = if own_raw > 0 {
            own_raw
        } else {
            0
        };
        let remaining: i64 = if g.bypass == 1 {
            own
        } else {
            let a: i64 = if own <= budget_left {
                own
            } else {
                budget_left
            };
            if a <= sched.window_left_secs {
                a
            } else {
                sched.window_left_secs
            }
        };
        if remaining > 0 {
            return (GateDecision::Granted { remaining_secs: remaining }, None);
        }
        close = Some(g.id);
    }
    if !sched.in_window {
        return (
            GateDecision::Blocked {
                reason: BlockReason::OutsideSchedule { next_window: sched.next_window },
            },
            close,
        );
    }
    if budget_left <= 0 {
        return (
            GateDecision::Blocked {
                reason: BlockReason::DailyBudgetSpent {
                    used_min: used_secs / 60,
                    budget_min: budget_secs / 60,
                },
            },
            close,
        );
    }
    if rules.exam_cooldown_minutes > 0 {
        if let Some(m) = cooldown {
            return (GateDecision::Blocked { reason: BlockReason::Cooldown { remaining_min: m } }, close);
        }
    }
    let left: i64 = if budget_left <= sched.window_left_secs {
        budget_left
    } else {
        sched.window_left_secs
    };
    (
        GateDecision::ExamAvailable {
            questions: rules.questions_per_test,
            max_grant_minutes: grantable_minutes(rules.session_minutes, left),
        },
        close,
    )
}

/// A grant is never worth more than what the day and the slot still allow,
/// unless a parent granted it; a quiz offered always grants at least one
/// minute, and never more than the session length nor (beyond the first
/// minute) what is left of the budget and the slot.
pub proof fn lemma_gate_within_limits(
    rules: Rules,
    in_window: bool,
    window_left: i64,
    budget_secs: i64,
    used_secs: i64,
    grant: Option<Grant>,
    cooldown: Option<i64>,
)
    ensures
        gate(rules, in_window, window_left, budget_secs, used_secs, grant, cooldown) matches GateView::Granted(s)
            ==> s > 0 && (grant.unwrap().bypass != 1 ==> s <= budget_left_of(budget_secs, used_secs) && s <= window_left),
        gate(rules, in_window, window_left, budget_secs, used_secs, grant, cooldown) matches GateView::ExamAvailable(m)
            ==> {
            &&& in_window
            &&& budget_left_of(budget_secs, used_secs) > 0
            &&& m >= 1
            &&& rules.session_minutes >= 1 ==> m <= rules.session_minutes
            &&& m * 60 <= max_int(min_int(budget_left_of(budget_secs, used_secs), window_left as int), 60)
        },
        gate(rules, in_window, window_left, budget_secs, used_secs, grant, cooldown) is OutsideSchedule
            ==> !in_window,
{
}

/// A live grant decides alone while it is worth something: what it is worth
/// (its own time left, cut down to the day's budget and to the slot unless a
/// parent granted it) is the time granted, and it stays open; once it is worth
/// nothing it is closed and grants nothing.
pub proof fn lemma_live_grant_decides(
    rules: Rules,
    in_window: bool,
    window_left: i64,
    budget_secs: i64,
    used_secs: i64,
    g: Grant,
    cooldown: Option<i64>,
)
    ensures
        ({
            let worth = grant_worth(g, budget_left_of(budget_secs, used_secs), window_left as int);
            let d = gate(rules, in_window, window_left, budget_secs, used_secs, Some(g), cooldown);
            let close = grant_to_close(window_left, budget_secs, used_secs, Some(g));
            &&& worth > 0 ==> d == GateView::Granted(worth) && close is None
            &&& worth <= 0 ==> !(d is Granted) && close == Some(g.id)
        }),
{
}

// ===== The schedule ===========================================================

/// The slot holds `now` on weekday `wd`.
pub open spec fn covers(s: Slot, wd: i64, now: i64) -> bool {
    s.0 == wd && s.1 <= now && now < s.2
}

/// The latest end among the slots that hold `now` (overlapping slots: the
/// latest end wins).
pub open spec fn latest_end(slots: Seq<Slot>, wd: i64, now: i64) -> Option<i64>
    decreases slots.len(),
{
    if slots.len() == 0 {
        None
    } else {
        let prev = latest_end(slots.drop_last(), wd, now);
        let s = slots.last();
        if covers(s, wd, now) {
            Some(
                match prev {
                    Some(e) => if e >= s.2 {
                        e
                    } else {
                        s.2
                    },
                    None => s.2,
                },
            )
        } else {
            prev
        }
    }
}

/// The slot opens on weekday `wd`, `off` days from today: later today, or at
/// any time on a later day.
pub open spec fn opens(s: Slot, wd: int, off: int, now: i64) -> bool {
    s.0 == wd && (off > 0 || s.1 > now)
}

/// The earliest start among the slots that open `off` days from today.
pub open spec fn earliest_start(slots: Seq<Slot>, wd: int, off: int, now: i64) -> Option<i64>
    decreases slots.len(),
{
    if slots.len() == 0 {
        None
    } else {
        let prev = earliest_start(slots.drop_last(), wd, off, now);
        let s = slots.last();
        if opens(s, wd, off, now) {
            Some(
                match prev {
                    Some(e) => if e <= s.1 {
                        e
                    } else {
                        s.1
                    },
                    None => s.1,
                },
            )
        } else {
            prev
        }
    }
}

/// The next opening over the coming week, from `off` days on: the number of
/// days from today and the start.
pub open spec fn next_opening(slots: Seq<Slot>, today: i64, now: i64, off: int) -> Option<(int, i64)>
    decreases 8 - off,
{
    if off < 0 || off > 7 {
        None
    } else {
        match earliest_start(slots, (today + off) % 7, off, now) {
            Some(s) => Some((off, s)),
            None => next_opening(slots, today, now, off + 1),
        }
    }
}

pub open spec fn weekday_text(wd: int) -> Seq<char> {
    if wd == 0 {
        "lundi"@
    } else if wd == 1 {
        "mardi"@
    } else if wd == 2 {
        "mercredi"@
    } else if wd == 3 {
        "jeudi"@
    } else if wd == 4 {
        "vendredi"@
    } else if wd == 5 {
        "samedi"@
    } else {
        "dimanche"@
    }
}

/// `HHhMM`.
pub open spec fn clock_text(start: i64) -> Seq<char> {
    pad2_text(tdiv(start as int, 60)) + seq!['h'] + pad2_text(trem(start as int, 60))
}

/// The next opening in words: « aujourd'hui à 17h00 », « demain à 17h00 »,
/// « mercredi à 17h00 ».
pub open spec fn opening_text(off: int, wd: int, start: i64) -> Seq<char> {
    if off == 0 {
        "aujourd'hui à "@ + clock_text(start)
    } else if off == 1 {
        "demain à "@ + clock_text(start)
    } else {
        weekday_text(wd) + " à "@ + clock_text(start)
    }
}

pub(crate) fn weekday_name(wd: i64) -> (r: &'static str)
    ensures
        r@ == weekday_text(wd as int),
{
    if wd == 0 {
        "lundi"
    } else if wd == 1 {
        "mardi"
    } else if wd == 2 {
        "mercredi"
    } else if wd == 3 {
        "jeudi"
    } else if wd == 4 {
        "vendredi"
    } else if wd == 5 {
        "samedi"
    } else {
        "dimanche"
    }
}

fn find_latest_end(slots: &[Slot], wd: i64, now: i64) -> (r: Option<i64>)
    ensures
        r == latest_end(slots@, wd, now),
{
    let mut end: Option<i64> = None;
    let mut i: usize = 0;
    while i < slots.len()
        invariant
            i <= slots@.len(),
            end == latest_end(slots@.subrange(0, i as int), wd, now),
        decreases slots@.len() - i,
    {
        let (d, start, stop): Slot = slots[i];
        if d == wd && start <= now && now < stop {
            end = Some(
                match end {
                    Some(e) => if e >= stop {
                        e
                    } else {
                        stop
                    },
                    None => stop,
                },
            );
        }
        i = i + 1;
        assert(slots@.subrange(0, i as int).drop_last() == slots@.subrange(0, i - 1));
    }
    assert(slots@.subrange(0, slots@.len() as int) == slots@);
    end
}

fn find_earliest_start(slots: &[Slot], wd: i64, off: i64, now: i64) -> (r: Option<i64>)
    ensures
        r == earliest_start(slots@, wd as int, off as int, now),
{
    let mut first: Option<i64> = None;
    let mut i: usize = 0;
    while i < slots.len()
        invariant
            i <= slots@.len(),
            first == earliest_start(slots@.subrange(0, i as int), wd as int, off as int, now),
        decreases slots@.len() - i,
    {
        let (d, start, _): Slot = slots[i];
        if d == wd && (off > 0 || start > now) {
            first = Some(
                match first {
                    Some(e) => if e <= start {
                        e
                    } else {
                        start
                    },
                    None => start,
                },
            );
        }
        i = i + 1;
        assert(slots@.subrange(0, i as int).drop_last() == slots@.subrange(0, i - 1));
    }
    assert(slots@.subrange(0, slots@.len() as int) == slots@);
    first
}

/// Where the child stands with respect to their slots, on weekday `today`
/// (Monday = 0) at `now_min` minutes past midnight.
pub fn schedule_status(slots: &[Slot], today: i64, now_min: i64) -> (r: ScheduleStatus)
    requires
        0 <= today <= 6,
        forall|i: int|
            0 <= i < slots@.len() ==> i64::MIN <= (#[trigger] slots@[i]).2 * 60 - now_min * 60
                <= i64::MAX && i64::MIN <= slots@[i].2 - now_min <= i64::MAX,
    ensures
        slots@.len() == 0 ==> r.in_window && r.window_left_secs == i64::MAX && r.next_window is None,
        slots@.len() > 0 ==> match latest_end(slots@, today, now_min) {
            Some(e) => r.in_window && r.window_left_secs == (e - now_min) * 60
                && r.next_window is None,
            None => !r.in_window && r.window_left_secs == 0 && match next_opening(
                slots@,
                today,
                now_min,
                0,
            ) {
                Some((off, s)) => r.next_window matches Some(t) && t@ == opening_text(
                    off,
                    (today + off) % 7,
                    s,
                ),
                None => r.next_window is None,
            },
        },
{
    if slots.len() == 0 {
        return ScheduleStatus { in_window: true, window_left_secs: i64::MAX, next_window: None };
    }
    if let Some(end) = find_latest_end(slots, today, now_min) {
        proof {
            lemma_latest_end_is_greatest(slots@, today, now_min);
        }
        return ScheduleStatus {
            in_window: true,
            window_left_secs: (end - now_min) * 60,
            next_window: None,
        };
    }
    let mut off: i64 = 0;
    while off <= 7
        invariant
            0 <= today <= 6,
            0 <= off <= 8,
            slots@.len() > 0,
            latest_end(slots@, today, now_min) is None,
            next_opening(slots@, today, now_min, 0) == next_opening(
                slots@,
                today,
                now_min,
                off as int,
            ),
        decreases 8 - off,
    {
        let wd: i64 = (today + off) % 7;
        if let Some(start) = find_earliest_start(slots, wd, off, now_min) {
            let mut t: Vec<char> = Vec::new();
            if off == 0 {
                push_str(&mut t, "aujourd'hui à ");
            } else if off == 1 {
                push_str(&mut t, "demain à ");
            } else {
                push_str(&mut t, weekday_name(wd));
                push_str(&mut t, " à ");
            }
            push_pad2(&mut t, start / 60);
            t.push('h');
            push_pad2(&mut t, start % 60);
            assert(t@ =~= opening_text(off as int, (today + off) % 7, start));
            return ScheduleStatus {
                in_window: false,
                window_left_secs: 0,
                next_window: Some(string_of(&t)),
            };
        }
        off = off + 1;
    }
    ScheduleStatus { in_window: false, window_left_secs: 0, next_window: None }
}

/// The earliest start is the least start among the slots that open on weekday
/// `wd`, `off` days from today (later today when `off` is 0): no such slot
/// starts before it, and one starts exactly then. With no such slot there is
/// none.
pub proof fn lemma_earliest_start_is_least(slots: Seq<Slot>, wd: int, off: int, now: i64)
    ensures
        earliest_start(slots, wd, off, now) matches Some(st) ==> {
            &&& forall|i: int|
                0 <= i < slots.len() && (#[trigger] slots[i]).0 == wd && (off > 0 || slots[i].1 > now)
                    ==> st <= slots[i].1
            &&& exists|i: int|
                0 <= i < slots.len() && (#[trigger] slots[i]).0 == wd && (off > 0 || slots[i].1 > now)
                    && slots[i].1 == st
        },
        earliest_start(slots, wd, off, now) is None ==> forall|i: int|
            0 <= i < slots.len() ==> !((#[trigger] slots[i]).0 == wd && (off > 0 || slots[i].1 > now)),
    decreases slots.len(),
{
    if slots.len() > 0 {
        let p = slots.drop_last();
        lemma_earliest_start_is_least(p, wd, off, now);
        let last = slots.len() - 1;
        assert(slots[last] == slots.last());
        assert forall|i: int| 0 <= i < p.len() implies #[trigger] p[i] == slots[i] by {}
        match earliest_start(p, wd, off, now) {
            Some(e) => {
                let j = choose|i: int|
                    0 <= i < p.len() && (#[trigger] p[i]).0 == wd && (off > 0 || p[i].1 > now) && p[i].1 == e;
                assert(slots[j] == p[j]);
                assert forall|i: int|
                    0 <= i < slots.len() && (#[trigger] slots[i]).0 == wd && (off > 0 || slots[i].1 > now)
                    implies earliest_start(slots, wd, off, now).unwrap() <= slots[i].1 by {
                    if i < p.len() {
                        assert(p[i] == slots[i]);
                    }
                }
            },
            None => {
                assert forall|i: int|
                    0 <= i < slots.len() && (#[trigger] slots[i]).0 == wd && (off > 0 || slots[i].1 > now)
                    implies earliest_start(slots, wd, off, now).unwrap() <= slots[i].1 by {
                    if i < p.len() {
                        assert(p[i] == slots[i]);
                    }
                }
                assert forall|i: int| 0 <= i < slots.len() && earliest_start(slots, wd, off, now) is None
                    implies !((#[trigger] slots[i]).0 == wd && (off > 0 || slots[i].1 > now)) by {
                    if i < p.len() {
                        assert(p[i] == slots[i]);
                    }
                }
            },
        }
    }
}

/// Inside the schedule, the slot's end that counts is the latest end among the
/// slots that hold `now` on weekday `wd`: none of them ends after it, and one
/// ends exactly then. When no slot holds `now`, there is none.
pub proof fn lemma_latest_end_is_greatest(slots: Seq<Slot>, wd: i64, now: i64)
    ensures
        latest_end(slots, wd, now) matches Some(e) ==> {
            &&& forall|i: int|
                0 <= i < slots.len() && (#[trigger] slots[i]).0 == wd && slots[i].1 <= now && now
                    < slots[i].2 ==> slots[i].2 <= e
            &&& exists|i: int|
                0 <= i < slots.len() && (#[trigger] slots[i]).0 == wd && slots[i].1 <= now && now
                    < slots[i].2 && slots[i].2 == e
        },
        latest_end(slots, wd, now) is None ==> forall|i: int|
            0 <= i < slots.len() ==> !((#[trigger] slots[i]).0 == wd && slots[i].1 <= now && now
                < slots[i].2),
    decreases slots.len(),
{
    if slots.len() > 0 {
        let p = slots.drop_last();
        lemma_latest_end_is_greatest(p, wd, now);
        let last = slots.len() - 1;
        assert(slots[last] == slots.last());
        assert forall|i: int| 0 <= i < p.len() implies #[trigger] p[i] == slots[i] by {}
        if let Some(e) = latest_end(p, wd, now) {
            let j = choose|i: int|
                0 <= i < p.len() && (#[trigger] p[i]).0 == wd && p[i].1 <= now && now < p[i].2 && p[i].2
                    == e;
            assert(slots[j] == p[j]);
        }
        assert forall|i: int|
            0 <= i < slots.len() && (#[trigger] slots[i]).0 == wd && slots[i].1 <= now && now < slots[i].2
            implies latest_end(slots, wd, now) is Some && slots[i].2 <= latest_end(slots, wd, now).unwrap() by {
            if i < p.len() {
                assert(p[i] == slots[i]);
            }
        }
    }
}

/// Slot `s` opens `d` days after weekday `today`: on that weekday, and later
/// than `now` when `d` is 0.
pub open spec fn opens_on(s: Slot, today: i64, d: int, now: i64) -> bool {
    s.0 == (today + d) % 7 && (d > 0 || s.1 > now)
}

/// The next opening announced from day `from` on is the first day, from
/// `from` to a week ahead, on which some slot opens, and on that day the
/// earliest start among its opening slots: none starts before it, one starts
/// then, and no day before it has an opening slot. Without any, there is no
/// opening in the week.
pub proof fn lemma_next_opening_is_first(slots: Seq<Slot>, today: i64, now: i64, from: int)
    requires
        0 <= from,
    ensures
        next_opening(slots, today, now, from) matches Some((off, st)) ==> {
            &&& from <= off <= 7
            &&& forall|i: int|
                0 <= i < slots.len() && (#[trigger] slots[i]).0 == (today + off) % 7 && (off > 0
                    || slots[i].1 > now) ==> st <= slots[i].1
            &&& exists|i: int|
                0 <= i < slots.len() && (#[trigger] slots[i]).0 == (today + off) % 7 && (off > 0
                    || slots[i].1 > now) && slots[i].1 == st
            &&& forall|d: int, i: int|
                from <= d < off && 0 <= i < slots.len() ==> !#[trigger] opens_on(slots[i], today, d, now)
        },
        next_opening(slots, today, now, from) is None ==> forall|d: int, i: int|
            from <= d <= 7 && 0 <= i < slots.len() ==> !#[trigger] opens_on(slots[i], today, d, now),
    decreases 8 - from,
{
    if from <= 7 {
        lemma_earliest_start_is_least(slots, (today + from) % 7, from, now);
        if earliest_start(slots, (today + from) % 7, from, now) is None {
            lemma_next_opening_is_first(slots, today, now, from + 1);
        }
    }
}

/// Without a live grant the reasons come in this order: outside the schedule
/// first; then a spent budget for the day; then the pause after a failed quiz
/// (when the rules ask for one); otherwise a quiz is offered. Whatever the
/// grant, a refusal of each kind happens only under its own condition.
pub proof fn lemma_gate_reasons_in_order(
    rules: Rules,
    in_window: bool,
    window_left: i64,
    budget_secs: i64,
    used_secs: i64,
    grant: Option<Grant>,
    cooldown: Option<i64>,
)
    ensures
        ({
            let d = gate(rules, in_window, window_left, budget_secs, used_secs, grant, cooldown);
            &&& d is OutsideSchedule ==> !in_window
            &&& d is DailyBudgetSpent ==> in_window && budget_secs - used_secs <= 0
            &&& d matches GateView::Cooldown(m) ==> in_window && budget_secs - used_secs > 0
                && rules.exam_cooldown_minutes > 0 && cooldown == Some(m as i64)
            &&& d is ExamAvailable ==> in_window && budget_secs - used_secs > 0 && (
            rules.exam_cooldown_minutes <= 0 || cooldown is None)
            &&& grant is None && !in_window ==> d is OutsideSchedule
            &&& grant is None && in_window && budget_secs - used_secs <= 0 ==> d is DailyBudgetSpent
            &&& grant is None && in_window && budget_secs - used_secs > 0 && rules.exam_cooldown_minutes
                > 0 && cooldown is Some ==> d is Cooldown
            &&& grant is None && in_window && budget_secs - used_secs > 0 && (
            rules.exam_cooldown_minutes <= 0 || cooldown is None) ==> d is ExamAvailable
        }),
{
}

/// A live grant never grants more than its own time left, whether or not a
/// parent granted it; and with no live grant nothing is granted.
pub proof fn lemma_grant_within_own_time(
    rules: Rules,
    in_window: bool,
    window_left: i64,
    budget_secs: i64,
    used_secs: i64,
    grant: Option<Grant>,
    cooldown: Option<i64>,
)
    ensures
        gate(rules, in_window, window_left, budget_secs, used_secs, grant, cooldown) matches GateView::Granted(s)
            ==> grant matches Some(g) && s <= (if g.minutes * 60 - g.consumed_secs > 0 {
            g.minutes * 60 - g.consumed_secs
        } else {
            0
        }),
{
}

} // verus!
