//! What the admin panel reads from its forms: a form is a list of
//! `(key, value)` pairs, in the order the browser sent them.

use chrono::DateTime;
use vstd::prelude::*;

use crate::grid::{canonical_model, canonical_text, spec_validate_model};
use crate::quiz::{free_kind, grid_kind, is_grid};
use crate::text::{
    chars_eq_str, chars_of, find_char, find_in, int_text, nat_text, pad2_text, parse_i64, parse_int,
    parse_nat, parse_usize, push_chars, push_int, push_nat, push_pad2, push_str, same_chars,
    string_of, sub_chars, tdiv, trem, trim, trim_bounds, trimmed,
};

verus! {

pub type Pair = (String, String);

// ===== Who may enter ==========================================================

/// The mark of a request made by the parent: held only by the requests that
/// `AdminAuth::let_in` lets in.
#[derive(Debug, Clone, Copy)]
pub struct AdminAuth;

/// Where a request that is not let in goes.
#[derive(Debug, Clone, Copy, PartialEq, Eq, Structural)]
pub enum AdminRedirect {
    /// A password exists: log in.
    Login,
    /// No password yet: choose one first.
    Setup,
    /// The database could not say: an internal error.
    Failure,
}

impl AdminAuth {
    /// A request is let in when it carries the session cookie (`has_token`)
    /// and the session is live (`session_live`: `None` when the check
    /// failed, which lets nobody in).
    pub fn let_in(has_token: bool, session_live: Option<bool>) -> (r: Option<AdminAuth>)
        ensures
            r is Some <==> has_token && session_live == Some(true),
    {
        if has_token {
            if let Some(true) = session_live {
                return Some(AdminAuth);
            }
        }
        None
    }

    /// Where a refused request goes, from whether a password is set (`None`
    /// when that could not be read).
    pub fn refusal(password_set: Option<bool>) -> (r: AdminRedirect)
        ensures
            password_set == Some(true) ==> r == AdminRedirect::Login,
            password_set == Some(false) ==> r == AdminRedirect::Setup,
            password_set is None ==> r == AdminRedirect::Failure,
    {
        match password_set {
            Some(true) => AdminRedirect::Login,
            Some(false) => AdminRedirect::Setup,
            None => AdminRedirect::Failure,
        }
    }
}

impl AdminRedirect {
    /// The page sent to; `None` for the internal error.
    pub fn target(self) -> (r: Option<&'static str>)
        ensures
            self == AdminRedirect::Login ==> (r matches Some(t) && t@ == "/admin/login"@),
            self == AdminRedirect::Setup ==> (r matches Some(t) && t@ == "/admin/setup"@),
            self == AdminRedirect::Failure ==> r is None,
    {
        match self {
            AdminRedirect::Login => {
                proof {
                    reveal_strlit("/admin/login");
                }
                Some("/admin/login")
            },
            AdminRedirect::Setup => {
                proof {
                    reveal_strlit("/admin/setup");
                }
                Some("/admin/setup")
            },
            AdminRedirect::Failure => None,
        }
    }
}

/// The index of the first pair whose key is `key`.
pub open spec fn find_key(pairs: Seq<Pair>, key: Seq<char>) -> Option<int>
    decreases pairs.len(),
{
    if pairs.len() == 0 {
        None
    } else if pairs[0].0@ == key {
        Some(0)
    } else {
        match find_key(pairs.drop_first(), key) {
            Some(i) => Some(i + 1),
            None => None,
        }
    }
}

/// The value of the first pair with this key; empty when there is none.
pub open spec fn pair_value(pairs: Seq<Pair>, key: Seq<char>) -> Seq<char> {
    match find_key(pairs, key) {
        Some(i) => pairs[i].1@,
        None => Seq::empty(),
    }
}

proof fn lemma_find_key(pairs: Seq<Pair>, key: Seq<char>, i: int)
    requires
        0 <= i <= pairs.len(),
        forall|k: int| 0 <= k < i ==> (#[trigger] pairs[k]).0@ != key,
    ensures
        i < pairs.len() && pairs[i].0@ == key ==> find_key(pairs, key) == Some(i),
        i == pairs.len() ==> find_key(pairs, key) is None,
    decreases i,
{
    if i > 0 {
        let rest = pairs.drop_first();
        assert forall|k: int| 0 <= k < i - 1 implies (#[trigger] rest[k]).0@ != key by {
            assert(rest[k] == pairs[k + 1]);
        }
        lemma_find_key(rest, key, i - 1);
        if i < pairs.len() {
            assert(rest[i - 1] == pairs[i]);
        }
    } else if pairs.len() > 0 {
        assert(pairs[0] == pairs[i]);
    }
}

fn find_pair(pairs: &[Pair], key: &str) -> (r: Option<usize>)
    ensures
        r matches Some(i) ==> i < pairs@.len() && find_key(pairs@, key@) == Some(i as int),
        r is None ==> find_key(pairs@, key@) is None,
{
    let k: Vec<char> = chars_of(key);
    let mut i: usize = 0;
    while i < pairs.len()
        invariant
            i <= pairs@.len(),
            k@ == key@,
            forall|j: int| 0 <= j < i ==> (#[trigger] pairs@[j]).0@ != key@,
        decreases pairs@.len() - i,
    {
        let pk: Vec<char> = chars_of(pairs[i].0.as_str());
        if same_chars(&pk, &k) {
            proof {
                lemma_find_key(pairs@, key@, i as int);
            }
            return Some(i);
        }
        i = i + 1;
    }
    proof {
        lemma_find_key(pairs@, key@, pairs@.len() as int);
    }
    None
}

/// The value of the first pair with this key, or an empty string.
pub fn pair_get(pairs: &[Pair], key: &str) -> (r: String)
    ensures
        r@ == pair_value(pairs@, key@),
{
    match find_pair(pairs, key) {
        Some(i) => pairs[i].1.clone(),
        None => string_of(&Vec::new()),
    }
}

/// `pair_get`, with `default` in place of an empty value.
pub fn pair_get_or(pairs: &[Pair], key: &str, default: &str) -> (r: String)
    ensures
        pair_value(pairs@, key@).len() == 0 ==> r@ == default@,
        pair_value(pairs@, key@).len() != 0 ==> r@ == pair_value(pairs@, key@),
{
    let s: String = pair_get(pairs, key);
    let c: Vec<char> = chars_of(s.as_str());
    if c.len() == 0 {
        string_of(&chars_of(default))
    } else {
        s
    }
}

/// Like `pair_get`, but tells "absent" from "empty": `None` for both, so that
/// an unset filter does not come back into a URL as `subject=`.
pub fn pair_get_opt(pairs: &[Pair], key: &str) -> (r: Option<String>)
    ensures
        pair_value(pairs@, key@).len() == 0 ==> r is None,
        pair_value(pairs@, key@).len() != 0 ==> (r matches Some(v) && v@ == pair_value(
            pairs@,
            key@,
        )),
{
    let s: String = pair_get(pairs, key);
    let c: Vec<char> = chars_of(s.as_str());
    if c.len() == 0 {
        None
    } else {
        Some(s)
    }
}

// ===== Times of day =============================================================

/// « HH:MM » → minutes past midnight, from 00:00 to 24:00.
pub open spec fn hhmm_minutes(s: Seq<char>) -> Option<int> {
    let t = trim(s);
    match find_char(t, ':') {
        None => None,
        Some(i) => match (parse_int(t.take(i)), parse_int(t.skip(i + 1))) {
            (Some(h), Some(m)) => if 0 <= h <= 24 && 0 <= m <= 59 && h * 60 + m <= 1440 {
                Some(h * 60 + m)
            } else {
                None
            },
            _ => None,
        },
    }
}

pub fn parse_hhmm(s: &str) -> (r: Option<i64>)
    ensures
        r matches Some(v) ==> hhmm_minutes(s@) == Some(v as int),
        r is None ==> hhmm_minutes(s@) is None,
{
    let cs: Vec<char> = chars_of(s);
    let (a, b): (usize, usize) = trim_bounds(&cs, 0, cs.len());
    assert(cs@.subrange(0, cs@.len() as int) == cs@);
    let t: Vec<char> = sub_chars(&cs, a, b);
    assert(t@.subrange(0, t@.len() as int) == t@);
    assert(t@ == trim(s@));
    let colon: usize = match find_in(&t, 0, t.len(), ':') {
        Some(i) => i,
        None => {
            return None;
        },
    };
    assert(t@.subrange(0, t@.len() as int) == t@);
    let h: i64 = match parse_i64(&t, 0, colon) {
        Some(v) => v,
        None => {
            return None;
        },
    };
    let m: i64 = match parse_i64(&t, colon + 1, t.len()) {
        Some(v) => v,
        None => {
            return None;
        },
    };
    assert(t@.subrange(0, colon as int) == t@.take(colon as int));
    assert(t@.subrange(colon + 1, t@.len() as int) == t@.skip(colon + 1));
    if 0 <= h && h <= 24 && 0 <= m && m <= 59 && h * 60 + m <= 1440 {
        Some(h * 60 + m)
    } else {
        None
    }
}

// ===== Subjects =================================================================

#[derive(Debug, Clone)]
pub struct SubjectOption {
    pub id: i64,
    pub name: String,
    pub selected: bool,
}

/// The subjects as options of a list, the `selected` one ticked.
pub fn build_subject_options(rows: Vec<(i64, String)>, selected: Option<i64>) -> (r: Vec<
    SubjectOption,
>)
    ensures
        r@.len() == rows@.len(),
        forall|k: int|
            0 <= k < rows@.len() ==> (#[trigger] r@[k]).id == rows@[k].0 && r@[k].name@
                == rows@[k].1@ && r@[k].selected == (selected == Some(rows@[k].0)),
{
    let mut out: Vec<SubjectOption> = Vec::new();
    let mut i: usize = 0;
    while i < rows.len()
        invariant
            i <= rows@.len(),
            out@.len() == i,
            forall|k: int|
                0 <= k < i ==> (#[trigger] out@[k]).id == rows@[k].0 && out@[k].name@
                    == rows@[k].1@ && out@[k].selected == (selected == Some(rows@[k].0)),
        decreases rows@.len() - i,
    {
        let id: i64 = rows[i].0;
        let sel: bool = match selected {
            Some(s) => s == id,
            None => false,
        };
        out.push(SubjectOption { id, name: rows[i].1.clone(), selected: sel });
        i = i + 1;
    }
    out
}

// ===== The answers of the question form ========================================

/// `ans_<n>_text` names the text of the answer in slot `n`.
pub open spec fn text_slot(k: Seq<char>) -> Option<int> {
    if k.len() >= 4 && k.take(4) == "ans_"@ {
        let rest = k.skip(4);
        if rest.len() >= 5 && rest.skip(rest.len() - 5) == "_text"@ {
            parse_nat(rest.take(rest.len() - 5))
        } else {
            None
        }
    } else {
        None
    }
}

/// `ans_<n>_correct` marks the answer in slot `n` as right.
pub open spec fn correct_slot(k: Seq<char>) -> Option<int> {
    if k.len() >= 4 && k.take(4) == "ans_"@ {
        let rest = k.skip(4);
        if rest.len() >= 5 && rest.skip(rest.len() - 5) == "_text"@ {
            None
        } else if rest.len() >= 8 && rest.skip(rest.len() - 8) == "_correct"@ {
            parse_nat(rest.take(rest.len() - 8))
        } else {
            None
        }
    } else {
        None
    }
}

/// The text of slot `n`: the last value sent for it.
pub open spec fn slot_text(pairs: Seq<Pair>, n: int) -> Seq<char>
    decreases pairs.len(),
{
    if pairs.len() == 0 {
        Seq::empty()
    } else if text_slot(pairs.last().0@) == Some(n) {
        pairs.last().1@
    } else {
        slot_text(pairs.drop_last(), n)
    }
}

pub open spec fn slot_correct(pairs: Seq<Pair>, n: int) -> bool {
    exists|j: int| 0 <= j < pairs.len() && correct_slot((#[trigger] pairs[j]).0@) == Some(n)
}

fn ends_with(s: &[char], lo: usize, suffix: &str) -> (r: bool)
    requires
        lo <= s@.len(),
    ensures
        r == (s@.skip(lo as int).len() >= suffix@.len() && s@.skip(lo as int).skip(
            s@.skip(lo as int).len() - suffix@.len(),
        ) == suffix@),
{
    let x: Vec<char> = chars_of(suffix);
    let rest_len: usize = s.len() - lo;
    if rest_len < x.len() {
        return false;
    }
    let tail: Vec<char> = sub_chars(s, s.len() - x.len(), s.len());
    assert(s@.skip(lo as int).skip(s@.skip(lo as int).len() - suffix@.len()) =~= s@.subrange(
        s@.len() - x@.len(),
        s@.len() as int,
    ));
    same_chars(&tail, &x)
}

/// The slots that a key names: `(text slot, correct slot)`.
fn key_slots(k: &str) -> (r: (Option<usize>, Option<usize>))
    ensures
        r.0 matches Some(n) ==> text_slot(k@) == Some(n as int),
        r.0 is None ==> text_slot(k@) is None,
        r.1 matches Some(n) ==> correct_slot(k@) == Some(n as int),
        r.1 is None ==> correct_slot(k@) is None,
{
    let s: Vec<char> = chars_of(k);
    if s.len() < 4 {
        return (None, None);
    }
    let head: Vec<char> = sub_chars(&s, 0, 4);
    assert(head@ == s@.take(4));
    if !chars_eq_str(&head, "ans_") {
        return (None, None);
    }
    let ghost rest = s@.skip(4);
    if ends_with(&s, 4, "_text") {
        proof {
            reveal_strlit("_text");
        }
        let n: Option<usize> = parse_usize(&s, 4, s.len() - 5);
        assert(s@.subrange(4, s@.len() - 5) =~= rest.take(rest.len() - 5));
        return (n, None);
    }
    if ends_with(&s, 4, "_correct") {
        proof {
            reveal_strlit("_correct");
        }
        let n: Option<usize> = parse_usize(&s, 4, s.len() - 8);
        assert(s@.subrange(4, s@.len() - 8) =~= rest.take(rest.len() - 8));
        return (None, n);
    }
    (None, None)
}

/// The six answer slots of the question form: `(text, right)`.
pub open spec fn answer_slots(pairs: Seq<Pair>) -> Seq<(Seq<char>, bool)> {
    Seq::new(6, |k: int| (slot_text(pairs, k + 1), slot_correct(pairs, k + 1)))
}

/// The six answer slots of the question form, in order: the text sent for
/// each (the last one if sent twice, empty if none) and whether it is ticked.
pub fn collect_answer_pairs(pairs: &[Pair]) -> (r: Vec<(String, bool)>)
    ensures
        r@.len() == 6,
        forall|k: int|
            0 <= k < 6 ==> (#[trigger] r@[k]).0@ == answer_slots(pairs@)[k].0 && r@[k].1
                == answer_slots(pairs@)[k].1,
{
    let mut out: Vec<(String, bool)> = Vec::new();
    let mut n: usize = 1;
    while n <= 6
        invariant
            1 <= n <= 7,
            out@.len() == n - 1,
            forall|k: int|
                0 <= k < n - 1 ==> (#[trigger] out@[k]).0@ == slot_text(pairs@, k + 1) && out@[k].1
                    == slot_correct(pairs@, k + 1),
        decreases 7 - n,
    {
        let mut text: Option<usize> = None;
        let mut correct: bool = false;
        let mut j: usize = 0;
        while j < pairs.len()
            invariant
                1 <= n <= 6,
                j <= pairs@.len(),
                text matches Some(t) ==> t < j && slot_text(pairs@.subrange(0, j as int), n as int)
                    == pairs@[t as int].1@,
                text is None ==> slot_text(pairs@.subrange(0, j as int), n as int) == Seq::<
                    char,
                >::empty(),
                correct == exists|q: int|
                    0 <= q < j && correct_slot((#[trigger] pairs@[q]).0@) == Some(n as int),
            decreases pairs@.len() - j,
        {
            let (ts, cs): (Option<usize>, Option<usize>) = key_slots(pairs[j].0.as_str());
            let ghost pre = pairs@.subrange(0, j as int);
            let ghost next = pairs@.subrange(0, j + 1);
            assert(next.drop_last() == pre);
            assert(next.last() == pairs@[j as int]);
            if ts == Some(n) {
                text = Some(j);
            }
            if cs == Some(n) {
                correct = true;
            }
            j = j + 1;
        }
        assert(pairs@.subrange(0, pairs@.len() as int) == pairs@);
        let t: String = match text {
            Some(t) => pairs[t].1.clone(),
            None => string_of(&Vec::new()),
        };
        out.push((t, correct));
        n = n + 1;
    }
    out
}

/// The answers kept from the slots: the non-blank ones, trimmed, in order.
pub open spec fn kept_answers(slots: Seq<(Seq<char>, bool)>) -> Seq<(Seq<char>, bool)>
    decreases slots.len(),
{
    if slots.len() == 0 {
        Seq::empty()
    } else {
        let r = kept_answers(slots.drop_last());
        if trim(slots.last().0).len() == 0 {
            r
        } else {
            r.push((trim(slots.last().0), slots.last().1))
        }
    }
}

pub open spec fn answer_views(v: Seq<(String, bool)>) -> Seq<(Seq<char>, bool)> {
    Seq::new(v.len(), |k: int| (v[k].0@, v[k].1))
}

/// The answers of the question form: the filled slots, trimmed, in order.
pub fn form_answers(pairs: &[Pair]) -> (r: Vec<(String, bool)>)
    ensures
        answer_views(r@) == kept_answers(answer_slots(pairs@)),
{
    let raw: Vec<(String, bool)> = collect_answer_pairs(pairs);
    let ghost slots = answer_slots(pairs@);
    assert(answer_views(raw@) =~= slots);
    let mut out: Vec<(String, bool)> = Vec::new();
    let mut i: usize = 0;
    while i < raw.len()
        invariant
            i <= raw@.len(),
            answer_views(raw@) == slots,
            answer_views(out@) == kept_answers(slots.subrange(0, i as int)),
        decreases raw@.len() - i,
    {
        let t: String = trimmed(raw[i].0.as_str());
        let tc: Vec<char> = chars_of(t.as_str());
        let ghost pre = slots.subrange(0, i as int);
        let ghost next = slots.subrange(0, i + 1);
        assert(next.drop_last() == pre);
        assert(next.last() == slots[i as int]);
        assert(slots[i as int].0 == raw@[i as int].0@);
        if tc.len() != 0 {
            let c: bool = raw[i].1;
            out.push((t, c));
            assert(answer_views(out@) =~= kept_answers(next));
        }
        i = i + 1;
    }
    assert(slots.subrange(0, raw@.len() as int) == slots);
    out
}

pub open spec fn count_right(a: Seq<(Seq<char>, bool)>) -> nat
    decreases a.len(),
{
    if a.len() == 0 {
        0
    } else {
        count_right(a.drop_last()) + if a.last().1 {
            1nat
        } else {
            0nat
        }
    }
}

fn count_right_answers(a: &[(String, bool)]) -> (r: usize)
    ensures
        r == count_right(answer_views(a@)),
        r <= a@.len(),
{
    let mut n: usize = 0;
    let mut i: usize = 0;
    while i < a.len()
        invariant
            i <= a@.len(),
            n <= i,
            n == count_right(answer_views(a@).subrange(0, i as int)),
        decreases a@.len() - i,
    {
        let ghost v = answer_views(a@);
        assert(v.subrange(0, i + 1).drop_last() == v.subrange(0, i as int));
        if a[i].1 {
            n = n + 1;
        }
        i = i + 1;
    }
    assert(answer_views(a@).subrange(0, a@.len() as int) == answer_views(a@));
    n
}

// ===== The question form =======================================================

/// A question read from the admin form.
#[derive(Debug, Clone)]
pub struct ParsedQuestion {
    pub subject_id: i64,
    pub kind: String,
    pub statement: String,
    pub explanation: Option<String>,
    pub difficulty: i64,
    pub answers: Vec<(String, bool)>,
}

pub struct ParsedView {
    pub subject_id: i64,
    pub kind: Seq<char>,
    pub statement: Seq<char>,
    pub explanation: Option<Seq<char>>,
    pub difficulty: i64,
    pub answers: Seq<(Seq<char>, bool)>,
}

impl View for ParsedQuestion {
    type V = ParsedView;

    open spec fn view(&self) -> ParsedView {
        ParsedView {
            subject_id: self.subject_id,
            kind: self.kind@,
            statement: self.statement@,
            explanation: match self.explanation {
                Some(e) => Some(e@),
                None => None,
            },
            difficulty: self.difficulty,
            answers: answer_views(self.answers@),
        }
    }
}

pub open spec fn known_kind(kind: Seq<char>) -> bool {
    kind == "single"@ || kind == "multi"@ || kind == "exact"@ || kind == "number"@ || grid_kind(kind)
}

/// The difficulty field: `3` when empty.
pub open spec fn difficulty_field(pairs: Seq<Pair>) -> Seq<char> {
    if pair_value(pairs, "difficulty"@).len() == 0 {
        "3"@
    } else {
        pair_value(pairs, "difficulty"@)
    }
}

/// What the question form gives: the question, or the message shown above the
/// form. For a `number` question, `first_is_number` is whether its answer
/// reads as a number.
pub open spec fn question_form(pairs: Seq<Pair>, first_is_number: bool) -> Result<
    ParsedView,
    Seq<char>,
> {
    let statement = trim(pair_value(pairs, "statement"@));
    let kind = pair_value(pairs, "kind"@);
    let expl = trim(pair_value(pairs, "explanation"@));
    let answers = kept_answers(answer_slots(pairs));
    let n = answers.len();
    let right = count_right(answers);
    if statement.len() == 0 {
        Err("L'énoncé ne peut pas être vide."@)
    } else if parse_int(pair_value(pairs, "subject_id"@)) is None {
        Err("Choisis une matière."@)
    } else if !known_kind(kind) {
        Err("Type invalide (single, multi, exact, number, grid_cells ou grid_lines)."@)
    } else if parse_int(difficulty_field(pairs)) is None {
        Err("Difficulté invalide."@)
    } else if !(1 <= parse_int(difficulty_field(pairs)).unwrap() <= 5) {
        Err("La difficulté doit être entre 1 et 5."@)
    } else {
        let q = ParsedView {
            subject_id: parse_int(pair_value(pairs, "subject_id"@)).unwrap() as i64,
            kind,
            statement,
            explanation: if expl.len() == 0 {
                None
            } else {
                Some(expl)
            },
            difficulty: parse_int(difficulty_field(pairs)).unwrap() as i64,
            answers,
        };
        if free_kind(kind) {
            if n != 1 || right != 1 {
                Err("Type '"@ + kind
                    + "' : remplis UNE seule réponse (la bonne) et coche « correcte »."@)
            } else if kind == "number"@ && !first_is_number {
                Err("Type 'number' : « "@ + answers[0].0 + " » n'est pas un nombre."@)
            } else {
                Ok(q)
            }
        } else if grid_kind(kind) {
            if n != 1 || right != 1 {
                Err("Type '"@ + kind
                    + "' : remplis UNE seule réponse (la bonne) et coche « correcte »."@)
            } else {
                match spec_validate_model(kind, answers[0].0) {
                    Err(e) => Err("Type '"@ + kind + "' : "@ + e),
                    Ok(m) => Ok(
                        ParsedView {
                            subject_id: q.subject_id,
                            kind,
                            statement,
                            explanation: q.explanation,
                            difficulty: q.difficulty,
                            answers: seq![(canonical_text(m), true)],
                        },
                    ),
                }
            }
        } else if n < 2 {
            Err("Au moins 2 réponses non vides sont requises."@)
        } else if kind == "single"@ && right != 1 {
            Err("Type 'single' exige exactement 1 réponse correcte (trouvé "@ + nat_text(right)
                + ")."@)
        } else if kind == "multi"@ && (right < 1 || n - right < 1) {
            Err("Type 'multi' exige au moins 1 correcte ET 1 incorrecte."@)
        } else {
            Ok(q)
        }
    }
}

fn err_text(s: &str) -> (r: Result<ParsedQuestion, String>)
    ensures
        r matches Err(m) && m@ == s@,
{
    Err(string_of(&chars_of(s)))
}

/// Reads the question form (see `question_form`).
pub fn parse_question_form(pairs: &[Pair], first_is_number: bool) -> (r: Result<
    ParsedQuestion,
    String,
>)
    ensures
        r matches Ok(q) ==> question_form(pairs@, first_is_number) == Ok::<ParsedView, Seq<char>>(
            q@,
        ),
        r matches Err(m) ==> question_form(pairs@, first_is_number) == Err::<
            ParsedView,
            Seq<char>,
        >(m@),
{
    proof {
        reveal_strlit("single");
        reveal_strlit("multi");
        reveal_strlit("exact");
        reveal_strlit("number");
        assert("single"@[0] != "exact"@[0]);
        assert("single"@[0] != "number"@[0]);
        assert("single"@[0] != "multi"@[0]);
        assert("number"@[0] != "exact"@[0]);
    }
    let raw_statement: String = pair_get(pairs, "statement");
    let statement: String = trimmed(raw_statement.as_str());
    if chars_of(statement.as_str()).len() == 0 {
        return err_text("L'énoncé ne peut pas être vide.");
    }
    let sid_text: String = pair_get(pairs, "subject_id");
    let sid_chars: Vec<char> = chars_of(sid_text.as_str());
    let subject_id: i64 = match parse_i64(&sid_chars, 0, sid_chars.len()) {
        Some(v) => v,
        None => {
            assert(sid_chars@.subrange(0, sid_chars@.len() as int) == sid_chars@);
            return err_text("Choisis une matière.");
        },
    };
    assert(sid_chars@.subrange(0, sid_chars@.len() as int) == sid_chars@);
    let kind: String = pair_get(pairs, "kind");
    let kc: Vec<char> = chars_of(kind.as_str());
    let is_single: bool = chars_eq_str(&kc, "single");
    let is_multi: bool = chars_eq_str(&kc, "multi");
    let is_exact: bool = chars_eq_str(&kc, "exact");
    let is_number: bool = chars_eq_str(&kc, "number");
    let is_drawn: bool = is_grid(kind.as_str());
    if !(is_single || is_multi || is_exact || is_number || is_drawn) {
        return err_text("Type invalide (single, multi, exact, number, grid_cells ou grid_lines).");
    }
    let dtext: String = pair_get_or(pairs, "difficulty", "3");
    let dc: Vec<char> = chars_of(dtext.as_str());
    assert(dc@.subrange(0, dc@.len() as int) == dc@);
    let difficulty: i64 = match parse_i64(&dc, 0, dc.len()) {
        Some(v) => v,
        None => {
            return err_text("Difficulté invalide.");
        },
    };
    if !(1 <= difficulty && difficulty <= 5) {
        return err_text("La difficulté doit être entre 1 et 5.");
    }
    let raw_expl: String = pair_get(pairs, "explanation");
    let expl: String = trimmed(raw_expl.as_str());
    let explanation: Option<String> = if chars_of(expl.as_str()).len() == 0 {
        None
    } else {
        Some(expl)
    };
    let answers: Vec<(String, bool)> = form_answers(pairs);
    let n: usize = answers.len();
    let right: usize = count_right_answers(&answers);
    assert(answer_views(answers@).len() == answers@.len());
    if is_exact || is_number {
        if n != 1 || right != 1 {
            let mut m: Vec<char> = chars_of("Type '");
            push_chars(&mut m, &kc);
            push_str(&mut m, "' : remplis UNE seule réponse (la bonne) et coche « correcte ».");
            return Err(string_of(&m));
        }
        if is_number && !first_is_number {
            let mut m: Vec<char> = chars_of("Type 'number' : « ");
            let a: Vec<char> = chars_of(answers[0].0.as_str());
            assert(answer_views(answers@)[0].0 == a@);
            push_chars(&mut m, &a);
            push_str(&mut m, " » n'est pas un nombre.");
            return Err(string_of(&m));
        }
    } else if is_drawn {
        if n != 1 || right != 1 {
            let mut m: Vec<char> = chars_of("Type '");
            push_chars(&mut m, &kc);
            push_str(&mut m, "' : remplis UNE seule réponse (la bonne) et coche « correcte ».");
            return Err(string_of(&m));
        }
        let a: Vec<char> = chars_of(answers[0].0.as_str());
        assert(answer_views(answers@)[0].0 == a@);
        match canonical_model(kind.as_str(), answers[0].0.as_str()) {
            Err(e) => {
                let mut m: Vec<char> = chars_of("Type '");
                push_chars(&mut m, &kc);
                push_str(&mut m, "' : ");
                push_str(&mut m, e.as_str());
                return Err(string_of(&m));
            },
            Ok(c) => {
                let drawn: Vec<(String, bool)> = vec![(c, true)];
                assert(answer_views(drawn@) =~= seq![(c@, true)]);
                return Ok(
                    ParsedQuestion {
                        subject_id,
                        kind,
                        statement,
                        explanation,
                        difficulty,
                        answers: drawn,
                    },
                );
            },
        }
    } else {
        if n < 2 {
            return err_text("Au moins 2 réponses non vides sont requises.");
        }
        if is_single && right != 1 {
            let mut m: Vec<char> = chars_of("Type 'single' exige exactement 1 réponse correcte (trouvé ");
            push_nat(&mut m, right as u64);
            push_str(&mut m, ").");
            return Err(string_of(&m));
        }
        if is_multi && (right < 1 || n - right < 1) {
            return err_text("Type 'multi' exige au moins 1 correcte ET 1 incorrecte.");
        }
    }
    Ok(ParsedQuestion { subject_id, kind, statement, explanation, difficulty, answers })
}

// ===== The detail of an attempt =================================================

/// One answer of an attempt as the history kept it.
#[derive(Debug, Clone)]
pub struct HistoryRow {
    pub question_id: i64,
    pub kind: String,
    pub statement: String,
    pub answer_text: String,
    pub was_chosen: i64,
    pub is_correct: i64,
}

#[derive(Debug, Clone)]
pub struct HistoryDetailQuestion {
    pub statement: String,
    pub kind: String,
    /// The ticked answers are exactly the right ones.
    pub correct_overall: bool,
    pub answers: Vec<HistoryDetailAnswer>,
}

#[derive(Debug, Clone)]
pub struct HistoryDetailAnswer {
    pub text: String,
    pub is_correct: bool,
    pub was_chosen: bool,
}

pub struct AnswerView {
    pub text: Seq<char>,
    pub is_correct: bool,
    pub was_chosen: bool,
}

pub struct GroupView {
    pub statement: Seq<char>,
    pub kind: Seq<char>,
    pub answers: Seq<AnswerView>,
}

pub open spec fn row_answer(r: HistoryRow) -> AnswerView {
    AnswerView { text: r.answer_text@, is_correct: r.is_correct == 1, was_chosen: r.was_chosen == 1 }
}

/// The rows of an attempt grouped by question: each run of rows of the same
/// question is one question, with the statement and kind of its first row.
pub open spec fn history_groups(rows: Seq<HistoryRow>) -> Seq<GroupView>
    decreases rows.len(),
{
    if rows.len() == 0 {
        Seq::empty()
    } else {
        let g = history_groups(rows.drop_last());
        let r = rows.last();
        if rows.len() >= 2 && rows[rows.len() - 2].question_id == r.question_id {
            g.update(
                g.len() - 1,
                GroupView {
                    statement: g.last().statement,
                    kind: g.last().kind,
                    answers: g.last().answers.push(row_answer(r)),
                },
            )
        } else {
            g.push(GroupView { statement: r.statement@, kind: r.kind@, answers: seq![row_answer(r)] })
        }
    }
}

/// Every answer was ticked exactly when it was right.
pub open spec fn all_agree(answers: Seq<AnswerView>) -> bool {
    forall|k: int| 0 <= k < answers.len() ==> (#[trigger] answers[k]).was_chosen == answers[k].is_correct
}

pub open spec fn detail_answers(v: Seq<HistoryDetailAnswer>) -> Seq<AnswerView> {
    Seq::new(
        v.len(),
        |k: int| AnswerView { text: v[k].text@, is_correct: v[k].is_correct, was_chosen: v[k].was_chosen },
    )
}

pub open spec fn detail_is(q: HistoryDetailQuestion, g: GroupView) -> bool {
    &&& q.statement@ == g.statement
    &&& q.kind@ == g.kind
    &&& detail_answers(q.answers@) == g.answers
    &&& q.correct_overall == all_agree(g.answers)
}

proof fn lemma_history_nonempty(rows: Seq<HistoryRow>)
    ensures
        rows.len() > 0 ==> history_groups(rows).len() > 0,
    decreases rows.len(),
{
    if rows.len() > 1 {
        lemma_history_nonempty(rows.drop_last());
    }
}

/// The detail of an attempt: its rows, ordered by question, grouped into
/// questions (see `history_groups`).
pub fn group_history(rows: &[HistoryRow]) -> (r: Vec<HistoryDetailQuestion>)
    ensures
        r@.len() == history_groups(rows@).len(),
        forall|k: int|
            0 <= k < r@.len() ==> detail_is(#[trigger] r@[k], history_groups(rows@)[k]),
{
    let mut out: Vec<HistoryDetailQuestion> = Vec::new();
    let mut i: usize = 0;
    while i < rows.len()
        invariant
            i <= rows@.len(),
            out@.len() == history_groups(rows@.subrange(0, i as int)).len(),
            forall|k: int|
                0 <= k < out@.len() ==> detail_is(
                    #[trigger] out@[k],
                    history_groups(rows@.subrange(0, i as int))[k],
                ),
        decreases rows@.len() - i,
    {
        let ghost pre = rows@.subrange(0, i as int);
        let ghost next = rows@.subrange(0, i + 1);
        assert(next.drop_last() == pre);
        assert(next.last() == rows@[i as int]);
        proof {
            lemma_history_nonempty(pre);
        }
        let row: &HistoryRow = &rows[i];
        let a = HistoryDetailAnswer {
            text: row.answer_text.clone(),
            is_correct: row.is_correct == 1,
            was_chosen: row.was_chosen == 1,
        };
        let agree: bool = (row.was_chosen == 1) == (row.is_correct == 1);
        if i > 0 && rows[i - 1].question_id == row.question_id {
            assert(next[next.len() - 2] == rows@[i - 1]);
            let ghost g = history_groups(pre);
            let mut last: HistoryDetailQuestion = out.pop().unwrap();
            assert(detail_is(last, g.last()));
            let ghost before = last.answers@;
            last.answers.push(a);
            last.correct_overall = last.correct_overall && agree;
            assert(detail_answers(last.answers@) =~= g.last().answers.push(row_answer(*row)));
            assert(last.correct_overall == all_agree(g.last().answers.push(row_answer(*row)))) by {
                let s = g.last().answers.push(row_answer(*row));
                if all_agree(s) {
                    assert forall|k: int| 0 <= k < g.last().answers.len() implies (
                    #[trigger] g.last().answers[k]).was_chosen == g.last().answers[k].is_correct by {
                        assert(s[k] == g.last().answers[k]);
                    }
                    assert(s[s.len() - 1] == row_answer(*row));
                }
            }
            out.push(last);
        } else {
            if i > 0 {
                assert(next[next.len() - 2] == rows@[i - 1]);
            }
            let mut answers: Vec<HistoryDetailAnswer> = Vec::new();
            answers.push(a);
            let q = HistoryDetailQuestion {
                statement: row.statement.clone(),
                kind: row.kind.clone(),
                correct_overall: agree,
                answers,
            };
            assert(detail_answers(q.answers@) =~= seq![row_answer(*row)]);
            assert(all_agree(seq![row_answer(*row)]) == agree) by {
                assert(seq![row_answer(*row)][0] == row_answer(*row));
            }
            out.push(q);
        }
        i = i + 1;
    }
    assert(rows@.subrange(0, rows@.len() as int) == rows@);
    out
}

// ===== The questions list ======================================================

/// The query of the questions list, with the filters that are set: the values
/// stay bound parameters, only fixed SQL fragments are joined.
pub open spec fn questions_sql_text(by_subject: bool, by_difficulty: bool) -> Seq<char> {
    "SELECT q.id, q.statement, q.kind, s.name, q.difficulty, COUNT(a.id)\n         FROM questions q\n         JOIN subjects s ON s.id = q.subject_id\n         LEFT JOIN answers a ON a.question_id = q.id"@
        + if by_subject && by_difficulty {
        " WHERE q.subject_id = ? AND q.difficulty = ?"@
    } else if by_subject {
        " WHERE q.subject_id = ?"@
    } else if by_difficulty {
        " WHERE q.difficulty = ?"@
    } else {
        Seq::empty()
    } + " GROUP BY q.id ORDER BY q.id DESC"@
}

pub fn questions_sql(by_subject: bool, by_difficulty: bool) -> (r: String)
    ensures
        r@ == questions_sql_text(by_subject, by_difficulty),
{
    let mut s: Vec<char> = chars_of(
        "SELECT q.id, q.statement, q.kind, s.name, q.difficulty, COUNT(a.id)\n         FROM questions q\n         JOIN subjects s ON s.id = q.subject_id\n         LEFT JOIN answers a ON a.question_id = q.id",
    );
    if by_subject || by_difficulty {
        push_str(&mut s, " WHERE ");
        if by_subject {
            push_str(&mut s, "q.subject_id = ?");
        }
        if by_subject && by_difficulty {
            push_str(&mut s, " AND ");
        }
        if by_difficulty {
            push_str(&mut s, "q.difficulty = ?");
        }
        proof {
            reveal_strlit(" WHERE ");
            reveal_strlit(" AND ");
            reveal_strlit("q.subject_id = ?");
            reveal_strlit("q.difficulty = ?");
            reveal_strlit(" WHERE q.subject_id = ? AND q.difficulty = ?");
            reveal_strlit(" WHERE q.subject_id = ?");
            reveal_strlit(" WHERE q.difficulty = ?");
        }
    }
    push_str(&mut s, " GROUP BY q.id ORDER BY q.id DESC");
    assert(s@ =~= questions_sql_text(by_subject, by_difficulty));
    string_of(&s)
}

/// The difficulties 1 to 5, the filtered one ticked.
pub fn difficulty_options(selected: Option<i64>) -> (r: Vec<(i64, bool)>)
    ensures
        r@.len() == 5,
        forall|k: int| 0 <= k < 5 ==> (#[trigger] r@[k]).0 == k + 1 && r@[k].1 == (selected == Some((k + 1) as i64)),
{
    let mut out: Vec<(i64, bool)> = Vec::new();
    let mut d: i64 = 1;
    while d <= 5
        invariant
            1 <= d <= 6,
            out@.len() == d - 1,
            forall|k: int|
                0 <= k < d - 1 ==> (#[trigger] out@[k]).0 == k + 1 && out@[k].1 == (selected == Some(
                    (k + 1) as i64,
                )),
        decreases 6 - d,
    {
        let sel: bool = match selected {
            Some(s) => s == d,
            None => false,
        };
        out.push((d, sel));
        d = d + 1;
    }
    out
}

/// « #412 (Sciences) », or « #98 (Sciences, 3 contrôle(s)) » when the
/// question has a history, which will move to the kept question.
pub open spec fn victim_label_text(id: i64, subject: Seq<char>, history: i64) -> Seq<char> {
    if history == 0 {
        "#"@ + crate::text::int_text(id as int) + " ("@ + subject + ")"@
    } else {
        "#"@ + crate::text::int_text(id as int) + " ("@ + subject + ", "@ + crate::text::int_text(
            history as int,
        ) + " contrôle(s))"@
    }
}

pub fn victim_label(id: i64, subject: &str, history: i64) -> (r: String)
    ensures
        r@ == victim_label_text(id, subject@, history),
{
    let mut s: Vec<char> = chars_of("#");
    crate::text::push_int(&mut s, id);
    push_str(&mut s, " (");
    push_str(&mut s, subject);
    if history == 0 {
        push_str(&mut s, ")");
    } else {
        push_str(&mut s, ", ");
        crate::text::push_int(&mut s, history);
        push_str(&mut s, " contrôle(s))");
    }
    assert(s@ =~= victim_label_text(id, subject@, history));
    string_of(&s)
}

// ===== Children ================================================================

/// The avatar kept: the one typed, trimmed, or a smile when there is none.
pub open spec fn avatar_text(avatar: Seq<char>) -> Seq<char> {
    if trim(avatar).len() == 0 {
        "🙂"@
    } else {
        trim(avatar)
    }
}

pub fn child_avatar(avatar: &str) -> (r: String)
    ensures
        r@ == avatar_text(avatar@),
{
    let t: String = trimmed(avatar);
    let c: Vec<char> = chars_of(t.as_str());
    if c.len() == 0 {
        string_of(&chars_of("🙂"))
    } else {
        t
    }
}

/// A new child: a name is needed; name and avatar are kept trimmed.
pub open spec fn new_child(name: Seq<char>, avatar: Seq<char>) -> Result<
    (Seq<char>, Seq<char>),
    Seq<char>,
> {
    if trim(name).len() == 0 {
        Err("le prénom ne peut pas être vide"@)
    } else {
        Ok((trim(name), avatar_text(avatar)))
    }
}

pub fn check_new_child(name: &str, avatar: &str) -> (r: Result<(String, String), String>)
    ensures
        match r {
            Ok((n, a)) => new_child(name@, avatar@) == Ok::<(Seq<char>, Seq<char>), Seq<char>>(
                (n@, a@),
            ),
            Err(e) => new_child(name@, avatar@) == Err::<(Seq<char>, Seq<char>), Seq<char>>(e@),
        },
{
    let n: String = trimmed(name);
    let c: Vec<char> = chars_of(n.as_str());
    if c.len() == 0 {
        return Err(string_of(&chars_of("le prénom ne peut pas être vide")));
    }
    Ok((n, child_avatar(avatar)))
}

/// The refusal of a name already taken: `« name » existe déjà`.
pub fn name_taken_message(name: &str) -> (r: String)
    ensures
        r@ == "« "@ + name@ + " » existe déjà"@,
{
    let mut m: Vec<char> = chars_of("« ");
    push_str(&mut m, name);
    push_str(&mut m, " » existe déjà");
    string_of(&m)
}

/// The settings form of a child. The pass threshold is a percentage with
/// decimals; what the checks need of it is whether it lies in `[0, 100]`.
#[derive(Debug, Clone)]
pub struct ChildForm {
    pub name: String,
    pub avatar: String,
    pub difficulty_min: i64,
    pub difficulty_max: i64,
    pub questions_per_test: i64,
    pub threshold_in_range: bool,
    pub session_minutes: i64,
    pub daily_budget_minutes: i64,
    pub weekend_budget_minutes: i64,
    pub exam_cooldown_minutes: i64,
}

/// The first rule the form breaks, in the order they are checked.
pub open spec fn child_form_error(f: ChildForm) -> Option<Seq<char>> {
    if trim(f.name@).len() == 0 {
        Some("le prénom ne peut pas être vide"@)
    } else if !(1 <= f.difficulty_min <= 5) || !(1 <= f.difficulty_max <= 5) || f.difficulty_min
        > f.difficulty_max {
        Some("plage de difficulté invalide (1 ≤ min ≤ max ≤ 5)"@)
    } else if f.questions_per_test < 1 {
        Some("au moins 1 question par contrôle"@)
    } else if !f.threshold_in_range {
        Some("seuil hors [0,100]"@)
    } else if f.session_minutes < 1 {
        Some("la session doit durer ≥ 1 minute"@)
    } else if f.daily_budget_minutes < 0 || f.weekend_budget_minutes < 0
        || f.exam_cooldown_minutes < 0 {
        Some("les budgets ne peuvent pas être négatifs"@)
    } else {
        None
    }
}

fn refuse(m: &str) -> (r: Result<(String, String), String>)
    ensures
        r matches Err(e) && e@ == m@,
{
    Err(string_of(&chars_of(m)))
}

/// Checks the settings of a child; on success, the name and the avatar to
/// store (trimmed, the avatar defaulting to a smile).
pub fn check_child_form(f: &ChildForm) -> (r: Result<(String, String), String>)
    ensures
        match r {
            Ok((n, a)) => child_form_error(*f) is None && n@ == trim(f.name@) && a@ == avatar_text(
                f.avatar@,
            ),
            Err(e) => child_form_error(*f) == Some(e@),
        },
{
    let n: String = trimmed(f.name.as_str());
    let c: Vec<char> = chars_of(n.as_str());
    if c.len() == 0 {
        return refuse("le prénom ne peut pas être vide");
    }
    if !(1 <= f.difficulty_min && f.difficulty_min <= 5) || !(1 <= f.difficulty_max
        && f.difficulty_max <= 5) || f.difficulty_min > f.difficulty_max {
        return refuse("plage de difficulté invalide (1 ≤ min ≤ max ≤ 5)");
    }
    if f.questions_per_test < 1 {
        return refuse("au moins 1 question par contrôle");
    }
    if !f.threshold_in_range {
        return refuse("seuil hors [0,100]");
    }
    if f.session_minutes < 1 {
        return refuse("la session doit durer ≥ 1 minute");
    }
    if f.daily_budget_minutes < 0 || f.weekend_budget_minutes < 0 || f.exam_cooldown_minutes < 0 {
        return refuse("les budgets ne peuvent pas être négatifs");
    }
    Ok((n, child_avatar(f.avatar.as_str())))
}

// ===== Lists of numbers in a form ===============================================

/// The values of the pairs with this key that read as integers in
/// `lo..=hi`, in order; the others are skipped.
pub open spec fn ints_in(pairs: Seq<Pair>, key: Seq<char>, lo: int, hi: int) -> Seq<i64>
    decreases pairs.len(),
{
    if pairs.len() == 0 {
        Seq::empty()
    } else {
        let rest = ints_in(pairs.drop_last(), key, lo, hi);
        if pairs.last().0@ == key {
            match parse_int(pairs.last().1@) {
                Some(v) => if lo <= v <= hi {
                    rest.push(v as i64)
                } else {
                    rest
                },
                None => rest,
            }
        } else {
            rest
        }
    }
}

pub fn values_in(pairs: &[Pair], key: &str, lo: i64, hi: i64) -> (r: Vec<i64>)
    ensures
        r@ == ints_in(pairs@, key@, lo as int, hi as int),
{
    let k: Vec<char> = chars_of(key);
    let mut out: Vec<i64> = Vec::new();
    let mut i: usize = 0;
    while i < pairs.len()
        invariant
            i <= pairs@.len(),
            k@ == key@,
            out@ == ints_in(pairs@.subrange(0, i as int), key@, lo as int, hi as int),
        decreases pairs@.len() - i,
    {
        assert(pairs@.subrange(0, i + 1).drop_last() == pairs@.subrange(0, i as int));
        assert(pairs@.subrange(0, i + 1).last() == pairs@[i as int]);
        let pk: Vec<char> = chars_of(pairs[i].0.as_str());
        if same_chars(&pk, &k) {
            let pv: Vec<char> = chars_of(pairs[i].1.as_str());
            assert(pv@.subrange(0, pv@.len() as int) == pv@);
            match parse_i64(&pv, 0, pv.len()) {
                Some(v) => {
                    if lo <= v && v <= hi {
                        out.push(v);
                    }
                },
                None => {},
            }
        }
        i = i + 1;
    }
    assert(pairs@.subrange(0, pairs@.len() as int) == pairs@);
    out
}

// ===== Hours of play ============================================================

/// The form adding hours of play: the days ticked (`day`, from 0 for Monday
/// to 6), the start and the end (`HH:MM`).
pub open spec fn schedule_form(pairs: Seq<Pair>) -> Result<(Seq<i64>, int, int), Seq<char>> {
    let days = ints_in(pairs, "day"@, 0, 6);
    if days.len() == 0 {
        Err("coche au moins un jour"@)
    } else {
        match hhmm_minutes(pair_value(pairs, "start"@)) {
            None => Err("heure de début invalide (HH:MM)"@),
            Some(start) => match hhmm_minutes(pair_value(pairs, "end"@)) {
                None => Err("heure de fin invalide (HH:MM)"@),
                Some(end) => if start >= end {
                    Err("le début doit précéder la fin"@)
                } else {
                    Ok((days, start, end))
                },
            },
        }
    }
}

fn fail<T>(m: &str) -> (r: Result<T, String>)
    ensures
        r matches Err(e) && e@ == m@,
{
    Err(string_of(&chars_of(m)))
}

pub fn read_schedule_form(pairs: &[Pair]) -> (r: Result<(Vec<i64>, i64, i64), String>)
    ensures
        match r {
            Ok((d, s, e)) => schedule_form(pairs@) == Ok::<(Seq<i64>, int, int), Seq<char>>(
                (d@, s as int, e as int),
            ),
            Err(m) => schedule_form(pairs@) == Err::<(Seq<i64>, int, int), Seq<char>>(m@),
        },
{
    let days: Vec<i64> = values_in(pairs, "day", 0, 6);
    if days.len() == 0 {
        return fail("coche au moins un jour");
    }
    let start: i64 = match parse_hhmm(pair_get(pairs, "start").as_str()) {
        Some(v) => v,
        None => {
            return fail("heure de début invalide (HH:MM)");
        },
    };
    let end: i64 = match parse_hhmm(pair_get(pairs, "end").as_str()) {
        Some(v) => v,
        None => {
            return fail("heure de fin invalide (HH:MM)");
        },
    };
    if start >= end {
        return fail("le début doit précéder la fin");
    }
    Ok((days, start, end))
}

/// A day number brought into `0..=6`.
pub open spec fn clamp_day(wd: int) -> int {
    if wd < 0 {
        0
    } else if wd > 6 {
        6
    } else {
        wd
    }
}

/// The French name of a weekday, from 0 for Monday; out of range, the
/// nearest end of the week.
pub fn weekday_name(wd: i64) -> (r: &'static str)
    ensures
        r@ == crate::policy::weekday_text(clamp_day(wd as int)),
{
    let d: i64 = if wd < 0 {
        0
    } else if wd > 6 {
        6
    } else {
        wd
    };
    crate::policy::weekday_name(d)
}

/// Minutes past midnight as `{:02}:{:02}` of the hours and the minutes.
pub open spec fn clock_text(m: int) -> Seq<char> {
    pad2_text(tdiv(m, 60)) + seq![':'] + pad2_text(trem(m, 60))
}

pub fn clock(m: i64) -> (r: String)
    ensures
        r@ == clock_text(m as int),
{
    let mut out: Vec<char> = Vec::new();
    push_pad2(&mut out, m / 60);
    out.push(':');
    push_pad2(&mut out, m % 60);
    string_of(&out)
}

// ===== Setting the difficulty of many questions =================================

/// The difficulty chosen for the ticked questions.
pub open spec fn batch_difficulty_of(pairs: Seq<Pair>) -> Result<i64, Seq<char>> {
    match parse_int(pair_value(pairs, "difficulty"@)) {
        None => Err("difficulté invalide"@),
        Some(d) => if 1 <= d <= 5 {
            Ok(d as i64)
        } else {
            Err("la difficulté doit être entre 1 et 5"@)
        },
    }
}

pub fn batch_difficulty(pairs: &[Pair]) -> (r: Result<i64, String>)
    ensures
        match r {
            Ok(d) => batch_difficulty_of(pairs@) == Ok::<i64, Seq<char>>(d),
            Err(m) => batch_difficulty_of(pairs@) == Err::<i64, Seq<char>>(m@),
        },
{
    let v: Vec<char> = chars_of(pair_get(pairs, "difficulty").as_str());
    assert(v@.subrange(0, v@.len() as int) == v@);
    match parse_i64(&v, 0, v.len()) {
        None => fail("difficulté invalide"),
        Some(d) => if 1 <= d && d <= 5 {
            Ok(d)
        } else {
            fail("la difficulté doit être entre 1 et 5")
        },
    }
}

/// The list of questions to come back to, with the filters in use and a
/// message: `/admin/questions?subject=…&difficulty=…&msg=…`, each filter only
/// when it is set.
pub open spec fn back_to_questions_text(pairs: Seq<Pair>, msg: Seq<char>) -> Seq<char> {
    let s = pair_value(pairs, "filter_subject"@);
    let d = pair_value(pairs, "filter_difficulty"@);
    "/admin/questions?"@ + (if s.len() == 0 {
        Seq::empty()
    } else {
        "subject="@ + s + "&"@
    }) + (if d.len() == 0 {
        Seq::empty()
    } else {
        "difficulty="@ + d + "&"@
    }) + "msg="@ + msg
}

pub fn back_to_questions(pairs: &[Pair], msg: &str) -> (r: String)
    ensures
        r@ == back_to_questions_text(pairs@, msg@),
{
    let mut out: Vec<char> = chars_of("/admin/questions?");
    match pair_get_opt(pairs, "filter_subject") {
        Some(s) => {
            push_str(&mut out, "subject=");
            push_str(&mut out, s.as_str());
            push_str(&mut out, "&");
        },
        None => {},
    }
    match pair_get_opt(pairs, "filter_difficulty") {
        Some(d) => {
            push_str(&mut out, "difficulty=");
            push_str(&mut out, d.as_str());
            push_str(&mut out, "&");
        },
        None => {},
    }
    push_str(&mut out, "msg=");
    push_str(&mut out, msg);
    string_of(&out)
}

/// The message after the change: `{n}+question(s)+notée(s)+en+difficulté+{d}`.
pub fn batch_done_message(updated: u64, difficulty: i64) -> (r: String)
    ensures
        r@ == nat_text(updated as nat) + "+question(s)+notée(s)+en+difficulté+"@ + int_text(
            difficulty as int,
        ),
{
    let mut out: Vec<char> = Vec::new();
    push_nat(&mut out, updated);
    push_str(&mut out, "+question(s)+notée(s)+en+difficulté+");
    push_int(&mut out, difficulty);
    string_of(&out)
}

// ===== The history ================================================================

/// What chrono writes of the UNIX time `ts` in UTC as `%Y-%m-%d %H:%M`;
/// `None` when the date is outside chrono's range.
pub uninterp spec fn utc_minute_text(ts: i64) -> Option<Seq<char>>;

/// `DateTime::from_timestamp(ts, 0)`, then `format("%Y-%m-%d %H:%M")`
/// written out. Claimed: the result is `utc_minute_text(ts)`, a function of
/// `ts` alone (UTC: no time zone of the machine enters).
#[verifier::external_body]
fn utc_minute(ts: i64) -> (r: Option<String>)
    ensures
        match r {
            Some(t) => utc_minute_text(ts) == Some(t@),
            None => utc_minute_text(ts) is None,
        },
{
    match DateTime::from_timestamp(ts, 0) {
        Some(d) => Some(d.format("%Y-%m-%d %H:%M").to_string()),
        None => None,
    }
}

/// A time as shown in the history: the date and minute when there is one,
/// else the raw number.
pub open spec fn ts_text(formatted: Option<Seq<char>>, ts: i64) -> Seq<char> {
    match formatted {
        Some(t) => t,
        None => int_text(ts as int),
    }
}

/// The time shown, from what the date formatting gave (`None` out of range).
pub fn ts_shown(formatted: Option<String>, ts: i64) -> (r: String)
    ensures
        r@ == ts_text(
            match formatted {
                Some(t) => Some(t@),
                None => None,
            },
            ts,
        ),
{
    match formatted {
        Some(t) => t,
        None => {
            let mut v: Vec<char> = Vec::new();
            push_int(&mut v, ts);
            string_of(&v)
        },
    }
}

/// A time of the history, in UTC, to the minute.
pub fn format_ts(ts: i64) -> (r: String)
    ensures
        r@ == ts_text(utc_minute_text(ts), ts),
{
    let f: Option<String> = utc_minute(ts);
    ts_shown(f, ts)
}

/// A child in the list that filters the history.
#[derive(Debug, Clone)]
pub struct ChildOption {
    pub id: i64,
    /// The avatar, a space, the name.
    pub label: String,
    pub selected: bool,
}

/// The children as options, from `(id, avatar, name)`, the `selected` one
/// ticked.
pub fn child_options(rows: &[(i64, String, String)], selected: Option<i64>) -> (r: Vec<ChildOption>)
    ensures
        r@.len() == rows@.len(),
        forall|k: int|
            0 <= k < rows@.len() ==> (#[trigger] r@[k]).id == rows@[k].0 && r@[k].label@
                == rows@[k].1@ + seq![' '] + rows@[k].2@ && r@[k].selected == (selected == Some(
                rows@[k].0,
            )),
{
    let mut out: Vec<ChildOption> = Vec::new();
    let mut i: usize = 0;
    while i < rows.len()
        invariant
            i <= rows@.len(),
            out@.len() == i,
            forall|k: int|
                0 <= k < i ==> (#[trigger] out@[k]).id == rows@[k].0 && out@[k].label@
                    == rows@[k].1@ + seq![' '] + rows@[k].2@ && out@[k].selected == (selected
                    == Some(rows@[k].0)),
        decreases rows@.len() - i,
    {
        let id: i64 = rows[i].0;
        let mut label: Vec<char> = chars_of(rows[i].1.as_str());
        label.push(' ');
        push_str(&mut label, rows[i].2.as_str());
        let sel: bool = match selected {
            Some(s) => s == id,
            None => false,
        };
        out.push(ChildOption { id, label: string_of(&label), selected: sel });
        i = i + 1;
    }
    out
}

// ===== The question form ===========================================================

/// The answers shown in the question form: those stored, in order (right
/// when marked 1), then empty slots up to six.
pub fn form_slots(rows: &[(String, i64)]) -> (r: Vec<(String, bool)>)
    ensures
        r@.len() == if rows@.len() < 6 {
            6
        } else {
            rows@.len()
        },
        forall|k: int|
            0 <= k < rows@.len() ==> (#[trigger] r@[k]).0@ == rows@[k].0@ && r@[k].1 == (rows@[k].1
                == 1),
        forall|k: int| rows@.len() <= k < r@.len() ==> (#[trigger] r@[k]).0@.len() == 0 && !r@[k].1,
{
    let mut out: Vec<(String, bool)> = Vec::new();
    let mut i: usize = 0;
    while i < rows.len()
        invariant
            i <= rows@.len(),
            out@.len() == i,
            forall|k: int|
                0 <= k < i ==> (#[trigger] out@[k]).0@ == rows@[k].0@ && out@[k].1 == (rows@[k].1
                    == 1),
        decreases rows@.len() - i,
    {
        out.push((rows[i].0.clone(), rows[i].1 == 1));
        i = i + 1;
    }
    while out.len() < 6
        invariant
            out@.len() >= rows@.len(),
            forall|k: int|
                0 <= k < rows@.len() ==> (#[trigger] out@[k]).0@ == rows@[k].0@ && out@[k].1 == (
                rows@[k].1 == 1),
            forall|k: int|
                rows@.len() <= k < out@.len() ==> (#[trigger] out@[k]).0@.len() == 0 && !out@[k].1,
            rows@.len() >= 6 ==> out@.len() == rows@.len(),
            rows@.len() < 6 ==> out@.len() <= 6,
        decreases 6 - out@.len(),
    {
        out.push((string_of(&Vec::new()), false));
    }
    out
}

// ===== The parent's buttons =========================================================

/// Time given by a parent without a quiz: between 1 and 600 minutes.
pub fn check_grant_minutes(minutes: i64) -> (r: Result<(), String>)
    ensures
        1 <= minutes <= 600 ==> r is Ok,
        !(1 <= minutes <= 600) ==> (r matches Err(m) && m@ == "minutes hors de [1, 600]"@),
{
    if 1 <= minutes && minutes <= 600 {
        Ok(())
    } else {
        Err(string_of(&chars_of("minutes hors de [1, 600]")))
    }
}

/// The message after the purge of the duplicates.
pub fn purge_message(deleted: usize, groups: usize, repointed: u64) -> (r: String)
    ensures
        r@ == nat_text(deleted as nat) + "+doublon(s)+supprimé(s)+dans+"@ + nat_text(groups as nat)
            + "+groupe(s)+—+"@ + nat_text(repointed as nat)
            + "+ligne(s)+d'historique+réaffectée(s)"@,
{
    let mut out: Vec<char> = Vec::new();
    push_nat(&mut out, deleted as u64);
    push_str(&mut out, "+doublon(s)+supprimé(s)+dans+");
    push_nat(&mut out, groups as u64);
    push_str(&mut out, "+groupe(s)+—+");
    push_nat(&mut out, repointed);
    push_str(&mut out, "+ligne(s)+d'historique+réaffectée(s)");
    string_of(&out)
}

} // verus!
