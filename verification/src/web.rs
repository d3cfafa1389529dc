//! What the child's pages read and say: the quiz form, and the words of the
//! lock screen.

use vstd::prelude::*;

use crate::admin::Pair;
use crate::policy::BlockReason;
use crate::quiz::Given;
use crate::text::{
    chars_eq_str, chars_of, int_text, parse_i64, parse_int, push_chars, push_int, push_str,
    split_chars, split_on, string_of, sub_chars, tdiv, trim, trim_bounds, views,
};

verus! {

/// What a submitted answer is, as values.
pub enum GivenView {
    Choices(Seq<i64>),
    Text(Seq<char>),
    Grid(Seq<Seq<char>>),
}

pub open spec fn given_view(g: Given) -> GivenView {
    match g {
        Given::Choices(v) => GivenView::Choices(v@),
        Given::Text(t) => GivenView::Text(t@),
        Given::Grid(t) => GivenView::Grid(crate::grid::string_views(t@)),
    }
}

pub open spec fn entries_view(s: Seq<(i64, Given)>) -> Seq<(i64, GivenView)> {
    Seq::new(s.len(), |k: int| (s[k].0, given_view(s[k].1)))
}

/// The index of the entry of question `q`.
pub open spec fn key_index(s: Seq<(i64, GivenView)>, q: i64) -> Option<int>
    decreases s.len(),
{
    if s.len() == 0 {
        None
    } else if s[0].0 == q {
        Some(0)
    } else {
        match key_index(s.drop_first(), q) {
            Some(i) => Some(i + 1),
            None => None,
        }
    }
}

/// A ticked answer `a` of question `q`: added to its choices. Text already
/// given for the same question means a forged form; the tick is ignored and
/// grading decides against the stored kind.
pub open spec fn add_choice(s: Seq<(i64, GivenView)>, q: i64, a: i64) -> Seq<(i64, GivenView)> {
    match key_index(s, q) {
        Some(i) => match s[i].1 {
            GivenView::Choices(ids) => s.update(i, (q, GivenView::Choices(ids.push(a)))),
            _ => s,
        },
        None => s.push((q, GivenView::Choices(seq![a]))),
    }
}

/// The typed answer `t` of question `q`: it replaces what was given.
pub open spec fn put_text(s: Seq<(i64, GivenView)>, q: i64, t: Seq<char>) -> Seq<(i64, GivenView)> {
    match key_index(s, q) {
        Some(i) => s.update(i, (q, GivenView::Text(t))),
        None => s.push((q, GivenView::Text(t))),
    }
}

/// Why a quiz form is refused.
#[derive(Debug, Clone)]
pub enum FormError {
    /// A field could not be read: the message names it.
    Invalid(String),
    /// No question was submitted.
    Empty,
}

pub enum FormErrorView {
    Invalid(Seq<char>),
    Empty,
}

/// The ids listed in `question_ids`, each trimmed.
pub open spec fn read_ids(pieces: Seq<Seq<char>>) -> Result<Seq<i64>, Seq<char>>
    decreases pieces.len(),
{
    if pieces.len() == 0 {
        Ok(Seq::empty())
    } else {
        match read_ids(pieces.drop_last()) {
            Err(e) => Err(e),
            Ok(ids) => match parse_int(trim(pieces.last())) {
                Some(v) => Ok(ids.push(v as i64)),
                None => Err("invalid question_id '"@ + pieces.last() + "'"@),
            },
        }
    }
}

pub open spec fn starts(k: Seq<char>, p: Seq<char>) -> bool {
    k.len() >= p.len() && k.take(p.len() as int) == p
}

/// The state of the form after `pairs`: the question ids, and what was given
/// for each question, in the order questions first appear.
pub open spec fn read_form(pairs: Seq<Pair>) -> Result<(Seq<i64>, Seq<(i64, GivenView)>), Seq<char>>
    decreases pairs.len(),
{
    if pairs.len() == 0 {
        Ok((Seq::empty(), Seq::empty()))
    } else {
        match read_form(pairs.drop_last()) {
            Err(e) => Err(e),
            Ok((ids, given)) => {
                let k = pairs.last().0@;
                let v = pairs.last().1@;
                if k == "question_ids"@ {
                    match read_ids(split_on(v, ',')) {
                        Err(e) => Err(e),
                        Ok(more) => Ok((ids + more, given)),
                    }
                } else if starts(k, "q_"@) {
                    let suffix = k.skip(2);
                    match parse_int(suffix) {
                        None => Err("invalid q_ key '"@ + suffix + "'"@),
                        Some(q) => match parse_int(v) {
                            None => Err("invalid answer id '"@ + v + "'"@),
                            Some(a) => Ok((ids, add_choice(given, q as i64, a as i64))),
                        },
                    }
                } else if starts(k, "t_"@) {
                    let suffix = k.skip(2);
                    match parse_int(suffix) {
                        None => Err("invalid t_ key '"@ + suffix + "'"@),
                        Some(q) => Ok((ids, put_text(given, q as i64, v))),
                    }
                } else {
                    Ok((ids, given))
                }
            },
        }
    }
}

/// What `parse_form` gives.
pub open spec fn form_result(pairs: Seq<Pair>) -> Result<(Seq<i64>, Seq<(i64, GivenView)>), FormErrorView> {
    match read_form(pairs) {
        Err(e) => Err(FormErrorView::Invalid(e)),
        Ok((ids, given)) => if ids.len() == 0 {
            Err(FormErrorView::Empty)
        } else {
            Ok((ids, given))
        },
    }
}

fn find_entry(s: &Vec<(i64, Given)>, q: i64) -> (r: Option<usize>)
    ensures
        r matches Some(i) ==> i < s@.len() && key_index(entries_view(s@), q) == Some(i as int),
        r is None ==> key_index(entries_view(s@), q) is None,
{
    let ghost e = entries_view(s@);
    let mut i: usize = 0;
    while i < s.len()
        invariant
            i <= s@.len(),
            e == entries_view(s@),
            forall|k: int| 0 <= k < i ==> (#[trigger] e[k]).0 != q,
        decreases s@.len() - i,
    {
        if s[i].0 == q {
            proof {
                lemma_key_index(e, q, i as int);
            }
            return Some(i);
        }
        i = i + 1;
    }
    proof {
        lemma_key_index(e, q, s@.len() as int);
    }
    None
}

proof fn lemma_key_index(s: Seq<(i64, GivenView)>, q: i64, i: int)
    requires
        0 <= i <= s.len(),
        forall|k: int| 0 <= k < i ==> (#[trigger] s[k]).0 != q,
    ensures
        i < s.len() && s[i].0 == q ==> key_index(s, q) == Some(i),
        i == s.len() ==> key_index(s, q) is None,
    decreases i,
{
    if i > 0 {
        let rest = s.drop_first();
        assert forall|k: int| 0 <= k < i - 1 implies (#[trigger] rest[k]).0 != q by {
            assert(rest[k] == s[k + 1]);
        }
        lemma_key_index(rest, q, i - 1);
        if i < s.len() {
            assert(rest[i - 1] == s[i]);
        }
    } else if s.len() > 0 {
        assert(s[0] == s[i]);
    }
}

fn copy_ids(v: &Vec<i64>) -> (r: Vec<i64>)
    ensures
        r@ == v@,
{
    let mut out: Vec<i64> = Vec::new();
    let mut i: usize = 0;
    while i < v.len()
        invariant
            i <= v@.len(),
            out@ == v@.subrange(0, i as int),
        decreases v@.len() - i,
    {
        out.push(v[i]);
        i = i + 1;
        assert(out@ =~= v@.subrange(0, i as int));
    }
    assert(v@.subrange(0, v@.len() as int) == v@);
    out
}

fn add_choice_exec(s: &mut Vec<(i64, Given)>, q: i64, a: i64)
    ensures
        entries_view(final(s)@) == add_choice(entries_view(old(s)@), q, a),
{
    match find_entry(s, q) {
        Some(i) => {
            let ids: Option<Vec<i64>> = match &s[i].1 {
                Given::Choices(ids) => Some(copy_ids(ids)),
                _ => None,
            };
            if let Some(mut ids) = ids {
                ids.push(a);
                let ghost before = entries_view(s@);
                s.set(i, (q, Given::Choices(ids)));
                assert(entries_view(s@) =~= add_choice(before, q, a));
            }
        },
        None => {
            let ghost before = entries_view(s@);
            let mut ids: Vec<i64> = Vec::new();
            ids.push(a);
            s.push((q, Given::Choices(ids)));
            assert(entries_view(s@) =~= add_choice(before, q, a));
        },
    }
}

fn put_text_exec(s: &mut Vec<(i64, Given)>, q: i64, t: String)
    ensures
        entries_view(final(s)@) == put_text(entries_view(old(s)@), q, t@),
{
    let ghost before = entries_view(s@);
    match find_entry(s, q) {
        Some(i) => {
            s.set(i, (q, Given::Text(t)));
        },
        None => {
            s.push((q, Given::Text(t)));
        },
    }
    assert(entries_view(s@) =~= put_text(before, q, t@));
}

fn starts_with(k: &[char], p: &str) -> (r: bool)
    ensures
        r == starts(k@, p@),
{
    let pc: Vec<char> = chars_of(p);
    if k.len() < pc.len() {
        return false;
    }
    let head: Vec<char> = sub_chars(k, 0, pc.len());
    assert(head@ == k@.take(pc@.len() as int));
    crate::text::same_chars(&head, &pc)
}

/// Whether `s` starts with `p`.
pub(crate) fn starts_with_str(s: &str, p: &str) -> (r: bool)
    ensures
        r == starts(s@, p@),
{
    let c: Vec<char> = chars_of(s);
    starts_with(&c, p)
}

fn invalid(pre: &str, t: &[char], post: &str) -> (r: FormError)
    ensures
        r matches FormError::Invalid(m) && m@ == pre@ + t@ + post@,
{
    let mut m: Vec<char> = chars_of(pre);
    push_chars(&mut m, t);
    push_str(&mut m, post);
    FormError::Invalid(string_of(&m))
}

/// Reads the quiz form. Two prefixes, and the difference matters: `q_<id>`
/// carries the id of a ticked answer, `t_<id>` typed text. `question_ids`
/// lists the questions of the quiz, comma-separated.
pub fn parse_form(pairs: &[Pair]) -> (r: Result<(Vec<i64>, Vec<(i64, Given)>), FormError>)
    ensures
        match form_result(pairs@) {
            Ok((ids, given)) => r matches Ok((i, g)) && i@ == ids && entries_view(g@) == given,
            Err(FormErrorView::Invalid(m)) => r matches Err(FormError::Invalid(e)) && e@ == m,
            Err(FormErrorView::Empty) => r matches Err(FormError::Empty),
        },
{
    let mut ids: Vec<i64> = Vec::new();
    let mut given: Vec<(i64, Given)> = Vec::new();
    let mut j: usize = 0;
    assert(entries_view(given@) =~= Seq::<(i64, GivenView)>::empty());
    assert(pairs@.subrange(0, 0) =~= Seq::<Pair>::empty());
    while j < pairs.len()
        invariant
            j <= pairs@.len(),
            read_form(pairs@.subrange(0, j as int)) == Ok::<
                (Seq<i64>, Seq<(i64, GivenView)>),
                Seq<char>,
            >((ids@, entries_view(given@))),
        decreases pairs@.len() - j,
    {
        proof {
            reveal_strlit("question_ids");
            reveal_strlit("q_");
            reveal_strlit("t_");
        }
        let ghost pre = pairs@.subrange(0, j as int);
        let ghost next = pairs@.subrange(0, j + 1);
        assert(next.drop_last() == pre);
        assert(next.last() == pairs@[j as int]);
        let k: Vec<char> = chars_of(pairs[j].0.as_str());
        let v: Vec<char> = chars_of(pairs[j].1.as_str());
        if chars_eq_str(&k, "question_ids") {
            match read_id_list(&v) {
                Ok(more) => {
                    let mut more = more;
                    ids.append(&mut more);
                },
                Err(e) => {
                    proof {
                        lemma_read_form_err(pairs@, j + 1);
                    }
                    return Err(e);
                },
            }
        } else if starts_with(&k, "q_") {
            let ghost suffix = k@.skip(2);
            assert(k@.subrange(2, k@.len() as int) == suffix);
            let q: i64 = match parse_i64(&k, 2, k.len()) {
                Some(q) => q,
                None => {
                    let s: Vec<char> = sub_chars(&k, 2, k.len());
                    proof {
                        lemma_read_form_err(pairs@, j + 1);
                    }
                    return Err(invalid("invalid q_ key '", &s, "'"));
                },
            };
            assert(v@.subrange(0, v@.len() as int) == v@);
            let a: i64 = match parse_i64(&v, 0, v.len()) {
                Some(a) => a,
                None => {
                    proof {
                        lemma_read_form_err(pairs@, j + 1);
                    }
                    return Err(invalid("invalid answer id '", &v, "'"));
                },
            };
            add_choice_exec(&mut given, q, a);
        } else if starts_with(&k, "t_") {
            let ghost suffix = k@.skip(2);
            assert(k@.subrange(2, k@.len() as int) == suffix);
            let q: i64 = match parse_i64(&k, 2, k.len()) {
                Some(q) => q,
                None => {
                    let s: Vec<char> = sub_chars(&k, 2, k.len());
                    proof {
                        lemma_read_form_err(pairs@, j + 1);
                    }
                    return Err(invalid("invalid t_ key '", &s, "'"));
                },
            };
            put_text_exec(&mut given, q, pairs[j].1.clone());
        }
        j = j + 1;
    }
    assert(pairs@.subrange(0, pairs@.len() as int) == pairs@);
    if ids.len() == 0 {
        return Err(FormError::Empty);
    }
    Ok((ids, given))
}

/// The ids of a `question_ids` value.
fn read_id_list(v: &Vec<char>) -> (r: Result<Vec<i64>, FormError>)
    ensures
        match read_ids(split_on(v@, ',')) {
            Ok(ids) => r matches Ok(i) && i@ == ids,
            Err(m) => r matches Err(FormError::Invalid(e)) && e@ == m,
        },
{
    let pieces: Vec<Vec<char>> = split_chars(v, 0, v.len(), ',');
    assert(v@.subrange(0, v@.len() as int) == v@);
    let ghost ps = views(pieces@);
    let mut ids: Vec<i64> = Vec::new();
    let mut p: usize = 0;
    assert(ps.subrange(0, 0) =~= Seq::<Seq<char>>::empty());
    while p < pieces.len()
        invariant
            p <= pieces@.len(),
            ps == views(pieces@),
            ps == split_on(v@, ','),
            read_ids(ps.subrange(0, p as int)) == Ok::<Seq<i64>, Seq<char>>(ids@),
        decreases pieces@.len() - p,
    {
        let piece: &Vec<char> = &pieces[p];
        assert(ps[p as int] == piece@);
        let (a, b): (usize, usize) = trim_bounds(piece, 0, piece.len());
        assert(piece@.subrange(0, piece@.len() as int) == piece@);
        assert(ps.subrange(0, p + 1).drop_last() == ps.subrange(0, p as int));
        assert(ps.subrange(0, p + 1).last() == piece@);
        match parse_i64(piece, a, b) {
            Some(id) => {
                ids.push(id);
            },
            None => {
                proof {
                    lemma_read_ids_err(ps, p + 1);
                }
                return Err(invalid("invalid question_id '", piece, "'"));
            },
        }
        p = p + 1;
    }
    assert(ps.subrange(0, pieces@.len() as int) == ps);
    Ok(ids)
}

proof fn lemma_read_form_err(pairs: Seq<Pair>, j: int)
    requires
        0 <= j <= pairs.len(),
        read_form(pairs.subrange(0, j)) is Err,
    ensures
        read_form(pairs) == read_form(pairs.subrange(0, j)),
    decreases pairs.len() - j,
{
    if j < pairs.len() {
        assert(pairs.subrange(0, j + 1).drop_last() == pairs.subrange(0, j));
        lemma_read_form_err(pairs, j + 1);
    } else {
        assert(pairs.subrange(0, j) == pairs);
    }
}

proof fn lemma_read_ids_err(ps: Seq<Seq<char>>, p: int)
    requires
        0 <= p <= ps.len(),
        read_ids(ps.subrange(0, p)) is Err,
    ensures
        read_ids(ps) == read_ids(ps.subrange(0, p)),
    decreases ps.len() - p,
{
    if p < ps.len() {
        assert(ps.subrange(0, p + 1).drop_last() == ps.subrange(0, p));
        lemma_read_ids_err(ps, p + 1);
    } else {
        assert(ps.subrange(0, p) == ps);
    }
}

// ===== The lock screen =========================================================

/// The words of a lock screen: an emoji, a title and a sentence.
#[derive(Debug, Clone)]
pub struct BlockedMessage {
    pub emoji: String,
    pub title: String,
    pub detail: String,
}

pub open spec fn blocked_text(reason: BlockReason) -> (Seq<char>, Seq<char>, Seq<char>) {
    match reason {
        BlockReason::DailyBudgetSpent { used_min, budget_min } => (
            "⏳"@,
            "C'est fini pour aujourd'hui"@,
            "Tu as utilisé tes "@ + int_text(budget_min as int) + " minutes ("@ + int_text(
                used_min as int,
            ) + " min au compteur). Un contrôle de plus n'y changera rien — à demain !"@,
        ),
        BlockReason::OutsideSchedule { next_window } => (
            "🌙"@,
            "C'est l'heure de dormir"@,
            match next_window {
                Some(next) => "Ce n'est pas le moment d'utiliser l'ordinateur. Tu pourras revenir "@
                    + next@ + "."@,
                None => "Ce n'est pas le moment d'utiliser l'ordinateur."@,
            },
        ),
        BlockReason::Cooldown { remaining_min } => (
            "🧘"@,
            "Petite pause !"@,
            "Ton dernier contrôle n'est pas passé. Respire, relis tes leçons… tu pourras réessayer dans "@
                + int_text(remaining_min as int) + " minute"@ + if remaining_min > 1 {
                "s"@
            } else {
                Seq::empty()
            } + "."@,
        ),
    }
}

/// What the lock screen says for this reason. The reason IS the screen.
pub fn blocked_message(reason: &BlockReason) -> (r: BlockedMessage)
    ensures
        (r.emoji@, r.title@, r.detail@) == blocked_text(*reason),
{
    match reason {
        BlockReason::DailyBudgetSpent { used_min, budget_min } => {
            let mut d: Vec<char> = chars_of("Tu as utilisé tes ");
            push_int(&mut d, *budget_min);
            push_str(&mut d, " minutes (");
            push_int(&mut d, *used_min);
            push_str(&mut d, " min au compteur). Un contrôle de plus n'y changera rien — à demain !");
            BlockedMessage {
                emoji: string_of(&chars_of("⏳")),
                title: string_of(&chars_of("C'est fini pour aujourd'hui")),
                detail: string_of(&d),
            }
        },
        BlockReason::OutsideSchedule { next_window } => {
            let d: Vec<char> = match next_window {
                Some(next) => {
                    let mut d: Vec<char> = chars_of(
                        "Ce n'est pas le moment d'utiliser l'ordinateur. Tu pourras revenir ",
                    );
                    push_str(&mut d, next.as_str());
                    push_str(&mut d, ".");
                    d
                },
                None => chars_of("Ce n'est pas le moment d'utiliser l'ordinateur."),
            };
            BlockedMessage {
                emoji: string_of(&chars_of("🌙")),
                title: string_of(&chars_of("C'est l'heure de dormir")),
                detail: string_of(&d),
            }
        },
        BlockReason::Cooldown { remaining_min } => {
            let mut d: Vec<char> = chars_of(
                "Ton dernier contrôle n'est pas passé. Respire, relis tes leçons… tu pourras réessayer dans ",
            );
            push_int(&mut d, *remaining_min);
            push_str(&mut d, " minute");
            if *remaining_min > 1 {
                push_str(&mut d, "s");
            }
            push_str(&mut d, ".");
            assert(d@ =~= blocked_text(*reason).2);
            BlockedMessage {
                emoji: string_of(&chars_of("🧘")),
                title: string_of(&chars_of("Petite pause !")),
                detail: string_of(&d),
            }
        },
    }
}

/// The page shown when no question fits the child's level: an empty quiz
/// would be a dead end.
pub fn no_questions_message() -> (r: BlockedMessage)
    ensures
        r.emoji@ == "🧐"@,
        r.title@ == "Pas encore de questions pour toi"@,
        r.detail@ == "Aucune question ne correspond à ton niveau. Demande à un parent d'en ajouter !"@,
{
    BlockedMessage {
        emoji: string_of(&chars_of("🧐")),
        title: string_of(&chars_of("Pas encore de questions pour toi")),
        detail: string_of(
            &chars_of("Aucune question ne correspond à ton niveau. Demande à un parent d'en ajouter !"),
        ),
    }
}

/// The minutes shown for live time (rounded up) and the seconds after which
/// the page reloads itself (the end of the time, and a little more).
pub fn granted_times(remaining_secs: i64) -> (r: (i64, i64))
    requires
        remaining_secs <= i64::MAX - 59,
    ensures
        r.0 == tdiv(remaining_secs + 59, 60),
        r.1 == remaining_secs + 3,
{
    ((remaining_secs + 59) / 60, remaining_secs + 3)
}

pub open spec fn csv_text(ids: Seq<i64>) -> Seq<char>
    decreases ids.len(),
{
    if ids.len() == 0 {
        Seq::empty()
    } else if ids.len() == 1 {
        int_text(ids[0] as int)
    } else {
        csv_text(ids.drop_last()) + seq![','] + int_text(ids.last() as int)
    }
}

/// The ids, comma-separated: the list of the questions of a quiz.
pub fn ids_csv(ids: &[i64]) -> (r: String)
    ensures
        r@ == csv_text(ids@),
{
    let mut out: Vec<char> = Vec::new();
    let mut i: usize = 0;
    while i < ids.len()
        invariant
            i <= ids@.len(),
            out@ == csv_text(ids@.subrange(0, i as int)),
        decreases ids@.len() - i,
    {
        assert(ids@.subrange(0, i + 1).drop_last() == ids@.subrange(0, i as int));
        if i > 0 {
            out.push(',');
        }
        push_int(&mut out, ids[i]);
        i = i + 1;
    }
    assert(ids@.subrange(0, ids@.len() as int) == ids@);
    string_of(&out)
}

// ===== Who is at the screen =====================================================

/// The child named by the profile cookie: its value read as an id.
pub fn cookie_child(value: Option<&str>) -> (r: Option<i64>)
    ensures
        value is None ==> r is None,
        value matches Some(v) ==> match parse_int(v@) {
            Some(n) => r == Some(n as i64),
            None => r is None,
        },
{
    match value {
        None => None,
        Some(v) => {
            let c: Vec<char> = chars_of(v);
            assert(c@.subrange(0, c@.len() as int) == c@);
            parse_i64(&c, 0, c.len())
        },
    }
}

/// Without a usable cookie, who is at the screen, from the number of active
/// children: the only one (`Some(0)`), or nobody yet (`None`: the child picks
/// a profile). With no child at all, the parent must first create one.
pub fn sole_child(count: usize) -> (r: Result<Option<usize>, String>)
    ensures
        count == 0 ==> (r matches Err(m) && m@
            == "aucun enfant configuré — le parent doit en créer un depuis /admin/children"@),
        count == 1 ==> r == Ok::<Option<usize>, String>(Some(0usize)),
        count > 1 ==> r == Ok::<Option<usize>, String>(None),
{
    if count == 0 {
        Err(
            string_of(
                &chars_of("aucun enfant configuré — le parent doit en créer un depuis /admin/children"),
            ),
        )
    } else if count == 1 {
        Ok(Some(0))
    } else {
        Ok(None)
    }
}

/// The answers of a quiz once every one of its questions is there: a question
/// of `ids` that has no entry gets one with nothing ticked (skipped), in the
/// order of `ids`; the entries that were given stay as they are.
pub open spec fn with_skipped(s: Seq<(i64, GivenView)>, ids: Seq<i64>) -> Seq<(i64, GivenView)>
    decreases ids.len(),
{
    if ids.len() == 0 {
        s
    } else {
        let t = with_skipped(s, ids.drop_last());
        if key_index(t, ids.last()) is Some {
            t
        } else {
            t.push((ids.last(), GivenView::Choices(Seq::empty())))
        }
    }
}

proof fn lemma_key_index_push(t: Seq<(i64, GivenView)>, q: i64, x: (i64, GivenView))
    ensures
        key_index(t, q) is Some ==> key_index(t.push(x), q) == key_index(t, q),
        x.0 == q ==> key_index(t.push(x), q) is Some,
    decreases t.len(),
{
    if t.len() > 0 {
        assert(t.push(x).drop_first() =~= t.drop_first().push(x));
        assert(t.push(x)[0] == t[0]);
        lemma_key_index_push(t.drop_first(), q, x);
    } else {
        assert(t.push(x)[0] == x);
    }
}

/// Completing a quiz's answers loses none of those given, changes none, and
/// leaves no question of the quiz without an answer.
pub proof fn lemma_completed_covers(s: Seq<(i64, GivenView)>, ids: Seq<i64>)
    ensures
        with_skipped(s, ids).len() >= s.len(),
        forall|k: int| 0 <= k < s.len() ==> with_skipped(s, ids)[k] == s[k],
        forall|k: int| 0 <= k < ids.len() ==> (#[trigger] key_index(with_skipped(s, ids), ids[k])) is Some,
    decreases ids.len(),
{
    if ids.len() > 0 {
        let p = ids.drop_last();
        lemma_completed_covers(s, p);
        let t = with_skipped(s, p);
        let q = ids.last();
        let x = (q, GivenView::Choices(Seq::<i64>::empty()));
        lemma_key_index_push(t, q, x);
        assert forall|k: int| 0 <= k < ids.len() implies (#[trigger] key_index(with_skipped(s, ids), ids[k])) is Some by {
            if k < ids.len() - 1 {
                assert(ids[k] == p[k]);
                assert(key_index(t, p[k]) is Some);
                lemma_key_index_push(t, ids[k], x);
            }
        }
    }
}

/// Completes what the form carried with the questions it left out: each
/// question of the quiz that has no answer counts as skipped.
pub fn complete_submission(question_ids: &[i64], given: Vec<(i64, Given)>) -> (r: Vec<(i64, Given)>)
    ensures
        entries_view(r@) == with_skipped(entries_view(given@), question_ids@),
{
    let mut out: Vec<(i64, Given)> = given;
    let ghost start = entries_view(out@);
    let mut i: usize = 0;
    while i < question_ids.len()
        invariant
            i <= question_ids@.len(),
            entries_view(out@) == with_skipped(start, question_ids@.subrange(0, i as int)),
        decreases question_ids@.len() - i,
    {
        let q: i64 = question_ids[i];
        let ghost done = question_ids@.subrange(0, i as int);
        assert(question_ids@.subrange(0, i + 1).drop_last() == done);
        assert(question_ids@.subrange(0, i + 1).last() == q);
        match find_entry(&out, q) {
            Some(_) => {},
            None => {
                let ghost before = out@;
                out.push((q, Given::Choices(Vec::new())));
                proof {
                    assert(entries_view(out@) =~= entries_view(before).push(
                        (q, GivenView::Choices(Seq::empty())),
                    ));
                }
            },
        }
        i = i + 1;
    }
    assert(question_ids@.subrange(0, question_ids@.len() as int) == question_ids@);
    out
}

// ===== Exchanging a quiz for time ================================================

/// Whether a quiz may be exchanged for time by this child: `attempt` is what
/// is stored of it (`passed`, and the child who took it, 0 for none), `None`
/// when there is no such quiz; `already_exchanged` tells whether time was
/// already granted for it. A refusal carries its reason; `Ok(true)` means the
/// time is to be granted now, `Ok(false)` that the quiz was already
/// exchanged: a passed quiz is worth time once only.
pub fn unlock_check(attempt: Option<(i64, i64)>, child_id: i64, already_exchanged: bool) -> (r: Result<bool, String>)
    ensures
        attempt is None ==> (r matches Err(m) && m@ == "contrôle introuvable"@),
        attempt matches Some((passed, _)) && passed != 1 ==> (r matches Err(m) && m@
            == "ce contrôle n'a pas été réussi"@),
        attempt matches Some((passed, who)) && passed == 1 && who != child_id ==> (r matches Err(m)
            && m@ == "ce contrôle n'est pas le tien"@),
        attempt matches Some((passed, who)) && passed == 1 && who == child_id ==> r == Ok::<
            bool,
            String,
        >(!already_exchanged),
{
    match attempt {
        None => Err(string_of(&chars_of("contrôle introuvable"))),
        Some((passed, who)) => {
            if passed != 1 {
                Err(string_of(&chars_of("ce contrôle n'a pas été réussi")))
            } else if who != child_id {
                Err(string_of(&chars_of("ce contrôle n'est pas le tien")))
            } else {
                Ok(!already_exchanged)
            }
        },
    }
}

// ===== The door, as the kiosk and the clock ask it ===============================

/// Is the MACHINE open? For the kiosk and the clock, which do not know who
/// sits at the screen.
#[derive(Debug, Clone)]
pub struct GateAnswer {
    pub unlocked: bool,
    pub child_id: Option<i64>,
    pub child_name: Option<String>,
    pub remaining_secs: i64,
    /// What the clock does when time runs out: `overlay` or `logout`.
    pub lock_mode: String,
}

/// The answer to the kiosk and the clock. `lock_mode` is the parent's setting (`logout` when
/// unset); `parent_mode` is on when the parent opened the machine from the
/// lock screen: open, but for no child, so that nothing is counted;
/// `granted` is the first child with live time (id, name, seconds left).
pub fn gate_answer(
    lock_mode: Option<String>,
    parent_mode: bool,
    granted: Option<(i64, String, i64)>,
) -> (r: GateAnswer)
    ensures
        lock_mode matches Some(m) ==> r.lock_mode@ == m@,
        lock_mode is None ==> r.lock_mode@ == "logout"@,
        parent_mode ==> r.unlocked && r.child_id is None && (r.child_name matches Some(n) && n@
            == "le parent"@) && r.remaining_secs == 0,
        !parent_mode && granted is Some ==> r.unlocked && r.child_id == Some(granted.unwrap().0)
            && (r.child_name matches Some(n) && n@ == granted.unwrap().1@) && r.remaining_secs
            == granted.unwrap().2,
        !parent_mode && granted is None ==> !r.unlocked && r.child_id is None && r.child_name is None
            && r.remaining_secs == 0,
{
    let lock_mode: String = match lock_mode {
        Some(m) => m,
        None => string_of(&chars_of("logout")),
    };
    if parent_mode {
        return GateAnswer {
            unlocked: true,
            child_id: None,
            child_name: Some(string_of(&chars_of("le parent"))),
            remaining_secs: 0,
            lock_mode,
        };
    }
    match granted {
        Some((id, name, remaining_secs)) => GateAnswer {
            unlocked: true,
            child_id: Some(id),
            child_name: Some(name),
            remaining_secs,
            lock_mode,
        },
        None => GateAnswer {
            unlocked: false,
            child_id: None,
            child_name: None,
            remaining_secs: 0,
            lock_mode,
        },
    }
}

} // verus!
