//! The decisions of the session clock: when to warn the child, and when to
//! close the session. The clock itself (monotonic seconds, notifications,
//! logout) runs around these decisions.

use vstd::prelude::*;

use crate::text::{chars_of, int_text, push_int, push_str, string_of, tdiv};

verus! {

pub open spec fn plural_text(n: int) -> Seq<char> {
    if n > 1 {
        "s"@
    } else {
        Seq::empty()
    }
}

/// The plural mark of `n` things.
pub fn plural(n: i64) -> (r: &'static str)
    ensures
        r@ == plural_text(n as int),
{
    if n > 1 {
        "s"
    } else {
        proof {
            reveal_strlit("");
        }
        ""
    }
}

pub open spec fn countdown_text(remaining: int) -> Seq<char> {
    if remaining >= 60 {
        let min = tdiv(remaining + 59, 60);
        "il te reste "@ + int_text(min) + " minute"@ + plural_text(min) + ". Pense à sauvegarder !"@
    } else {
        "il te reste "@ + int_text(remaining) + " secondes. Sauvegarde vite !"@
    }
}

/// The warning before the end: minutes (rounded up) from one minute on,
/// seconds below.
pub fn countdown_message(remaining: i64) -> (r: String)
    requires
        remaining <= i64::MAX - 59,
    ensures
        r@ == countdown_text(remaining as int),
{
    let mut m: Vec<char> = chars_of("il te reste ");
    if remaining >= 60 {
        let min: i64 = (remaining + 59) / 60;
        push_int(&mut m, min);
        push_str(&mut m, " minute");
        push_str(&mut m, plural(min));
        push_str(&mut m, ". Pense à sauvegarder !");
    } else {
        push_int(&mut m, remaining);
        push_str(&mut m, " secondes. Sauvegarde vite !");
    }
    string_of(&m)
}

/// The warning steps, in seconds left: 300, 120, 60, 30, 10. The step passed
/// is the TIGHTEST one that `remaining` is under.
pub open spec fn step_passed(remaining: int) -> Option<int> {
    if remaining <= 10 {
        Some(10)
    } else if remaining <= 30 {
        Some(30)
    } else if remaining <= 60 {
        Some(60)
    } else if remaining <= 120 {
        Some(120)
    } else if remaining <= 300 {
        Some(300)
    } else {
        None
    }
}

/// The warning step passed is the tightest of the steps 300, 120, 60, 30 and
/// 10 seconds that `remaining` is under: one of them, with `remaining` under
/// it, and no larger than any other step `remaining` is under. Above five
/// minutes there is none.
pub proof fn lemma_tightest_step(remaining: int)
    ensures
        step_passed(remaining) matches Some(p) ==> {
            &&& p == 300 || p == 120 || p == 60 || p == 30 || p == 10
            &&& remaining <= p
            &&& remaining <= 300 ==> p <= 300
            &&& remaining <= 120 ==> p <= 120
            &&& remaining <= 60 ==> p <= 60
            &&& remaining <= 30 ==> p <= 30
            &&& remaining <= 10 ==> p <= 10
        },
        step_passed(remaining) is None ==> remaining > 300,
{
}

pub fn warning_step(remaining: i64) -> (r: Option<i64>)
    ensures
        r matches Some(w) ==> step_passed(remaining as int) == Some(w as int),
        r is None ==> step_passed(remaining as int) is None,
{
    if remaining <= 10 {
        Some(10)
    } else if remaining <= 30 {
        Some(30)
    } else if remaining <= 60 {
        Some(60)
    } else if remaining <= 120 {
        Some(120)
    } else if remaining <= 300 {
        Some(300)
    } else {
        None
    }
}

/// What the clock does with the lock's answer, before counting anything.
#[derive(Debug, Clone, Copy, PartialEq, Eq, Structural)]
pub enum DoorLook {
    /// The door closed while the clock runs (curfew, grant revoked): the
    /// desktop runs without right, so the session ends.
    Close,
    /// Open, but nobody's time is running: look again later.
    Idle,
    /// Count the time of this child.
    Count(i64),
}

/// The clock's first decision on each look: a shut door closes the session; an
/// open door with no child running leaves the clock idle; otherwise the
/// child's time is counted.
pub fn door_look(unlocked: bool, child_id: Option<i64>) -> (r: DoorLook)
    ensures
        !unlocked ==> r == DoorLook::Close,
        unlocked && child_id is None ==> r == DoorLook::Idle,
        unlocked && child_id is Some ==> r == DoorLook::Count(child_id->0),
{
    if !unlocked {
        DoorLook::Close
    } else {
        match child_id {
            None => DoorLook::Idle,
            Some(id) => DoorLook::Count(id),
        }
    }
}

/// What the clock does once it knows the seconds left.
#[derive(Debug, Clone)]
pub struct TimerStep {
    /// The last warning step given.
    pub warned_below: Option<i64>,
    /// A notification to show: title and body.
    pub notice: Option<(String, String)>,
    /// The time is up: close the session (after a short grace).
    pub expire: bool,
    /// Seconds to sleep before the next look.
    pub sleep_secs: u64,
}

pub open spec fn who_text(who: Option<Seq<char>>) -> Seq<char> {
    match who {
        Some(w) => w,
        None => "l'enfant"@,
    }
}

/// The decision, once `remaining` seconds are known: at the end, close with a
/// last word; otherwise warn once per step passed, and look again sooner in
/// the last minute.
pub open spec fn timer_step_ok(
    r: TimerStep,
    remaining: int,
    who: Option<Seq<char>>,
    warned_below: Option<i64>,
) -> bool {
    let w = who_text(who);
    if remaining <= 0 {
        &&& r.expire
        &&& r.warned_below == warned_below
        &&& r.notice matches Some((t, b)) && t@ == "Temps écoulé"@ && b@ == w
            + ", c'est fini pour cette fois. On ferme…"@
        &&& r.sleep_secs == 10
    } else {
        &&& !r.expire
        &&& r.sleep_secs == if remaining <= 60 {
            2u64
        } else {
            15u64
        }
        &&& match step_passed(remaining) {
            Some(p) => if warned_below != Some(p as i64) {
                &&& r.warned_below == Some(p as i64)
                &&& r.notice matches Some((t, b)) && t@ == "Il te reste peu de temps"@ && b@ == w
                    + ", "@ + countdown_text(remaining)
            } else {
                r.warned_below == warned_below && r.notice is None
            },
            None => r.warned_below == warned_below && r.notice is None,
        }
    }
}

pub fn timer_step(remaining: i64, who: Option<&str>, warned_below: Option<i64>) -> (r: TimerStep)
    requires
        remaining <= i64::MAX - 59,
    ensures
        timer_step_ok(
            r,
            remaining as int,
            match who {
                Some(w) => Some(w@),
                None => None,
            },
            warned_below,
        ),
{
    let mut w: Vec<char> = match who {
        Some(name) => chars_of(name),
        None => chars_of("l'enfant"),
    };
    if remaining <= 0 {
        push_str(&mut w, ", c'est fini pour cette fois. On ferme…");
        return TimerStep {
            warned_below,
            notice: Some((string_of(&chars_of("Temps écoulé")), string_of(&w))),
            expire: true,
            sleep_secs: 10,
        };
    }
    let sleep_secs: u64 = if remaining <= 60 {
        2
    } else {
        15
    };
    match warning_step(remaining) {
        Some(p) => {
            if warned_below != Some(p) {
                push_str(&mut w, ", ");
                let msg: String = countdown_message(remaining);
                push_str(&mut w, msg.as_str());
                TimerStep {
                    warned_below: Some(p),
                    notice: Some((string_of(&chars_of("Il te reste peu de temps")), string_of(&w))),
                    expire: false,
                    sleep_secs,
                }
            } else {
                TimerStep { warned_below, notice: None, expire: false, sleep_secs }
            }
        },
        None => TimerStep { warned_below, notice: None, expire: false, sleep_secs },
    }
}

/// A warning step is given once: asked again with the step it gave, the
/// clock stays silent until the next step or the end.
pub proof fn lemma_warn_once(remaining: int, who: Option<Seq<char>>, warned_below: Option<i64>, r: TimerStep)
    requires
        remaining > 0,
        timer_step_ok(r, remaining, who, warned_below),
    ensures
        step_passed(remaining) matches Some(p) ==> r.warned_below == Some(p as i64),
        warned_below == r.warned_below ==> r.notice is None,
{
}

} // verus!
