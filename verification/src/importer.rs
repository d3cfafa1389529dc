//! The questions of an import file, and the rules each must follow before it
//! goes into the bank: the same rules as the admin form.

use vstd::prelude::*;

use crate::grid::{canonical_model, canonical_text, spec_validate_model};
use crate::quiz::{free_kind, grid_kind, is_free_input, is_grid};
use crate::text::{
    chars_eq_str, chars_of, int_text, nat_text, push_int, push_nat, push_str, same_chars,
    string_of, trim, trimmed,
};

verus! {

/// One question of an import file.
#[derive(Debug, Clone)]
pub struct ImportQuestion {
    pub subject: String,
    pub kind: String,
    pub statement: String,
    pub answers: Vec<ImportAnswer>,
    pub explanation: Option<String>,
    /// 1 (easy) to 5 (hard); 3 when the file does not say.
    pub difficulty: i64,
}

#[derive(Debug, Clone)]
pub struct ImportAnswer {
    pub text: String,
    pub correct: bool,
}

#[derive(Debug, Clone, Default)]
pub struct ImportReport {
    pub subjects_created: usize,
    pub subjects_skipped: usize,
    pub questions_imported: usize,
    /// The index of each refused question in the file, and why.
    pub questions_failed: Vec<(usize, String)>,
}

/// The difficulty of a question whose file does not give one.
pub fn default_difficulty() -> (r: i64)
    ensures
        r == 3,
{
    3
}

/// The first answer whose text is blank once trimmed.
pub open spec fn first_blank(answers: Seq<ImportAnswer>) -> Option<int>
    decreases answers.len(),
{
    if answers.len() == 0 {
        None
    } else if trim(answers[0].text@).len() == 0 {
        Some(0)
    } else {
        match first_blank(answers.drop_first()) {
            Some(i) => Some(i + 1),
            None => None,
        }
    }
}

pub open spec fn count_correct(answers: Seq<ImportAnswer>) -> nat
    decreases answers.len(),
{
    if answers.len() == 0 {
        0
    } else {
        count_correct(answers.drop_last()) + if answers.last().correct {
            1nat
        } else {
            0nat
        }
    }
}

/// Why a question is refused, or `Ok` when it may be imported. The kinds that
/// store a single answer (typed or drawn) need exactly one, marked right; a
/// drawn one must be a valid model of its grid kind. For a `number` question,
/// `first_is_number` is whether its answer reads as a number.
pub open spec fn import_verdict(q: ImportQuestion, first_is_number: bool) -> Result<(), Seq<char>> {
    let n = q.answers@.len();
    let correct = count_correct(q.answers@);
    let kind = q.kind@;
    if trim(q.statement@).len() == 0 {
        Err("énoncé vide"@)
    } else if !(1 <= q.difficulty <= 5) {
        Err("difficulté "@ + int_text(q.difficulty as int) + " hors de [1,5]"@)
    } else if first_blank(q.answers@) is Some {
        Err("texte de la réponse #"@ + nat_text((first_blank(q.answers@).unwrap() + 1) as nat)
            + " vide"@)
    } else if free_kind(kind) || grid_kind(kind) {
        if n != 1 {
            Err("type '"@ + kind + "' exige exactement 1 réponse (la bonne), "@ + nat_text(n)
                + " fournies"@)
        } else if correct != 1 {
            Err("type '"@ + kind + "' exige que sa réponse soit marquée correcte"@)
        } else if kind == "number"@ && !first_is_number {
            Err("type 'number' : la réponse '"@ + trim(q.answers@[0].text@) + "' n'est pas un nombre"@)
        } else if grid_kind(kind) && spec_validate_model(kind, trim(q.answers@[0].text@)) is Err {
            Err("type '"@ + kind + "' : "@ + spec_validate_model(kind, trim(q.answers@[0].text@))->Err_0)
        } else {
            Ok(())
        }
    } else if n < 2 {
        Err("au moins 2 réponses requises, "@ + nat_text(n) + " fournies"@)
    } else if kind == "single"@ {
        if correct != 1 {
            Err("type 'single' exige exactement 1 réponse correcte, "@ + nat_text(correct)
                + " trouvées"@)
        } else {
            Ok(())
        }
    } else if kind == "multi"@ {
        if correct < 1 {
            Err("type 'multi' exige au moins 1 réponse correcte"@)
        } else if n - correct < 1 {
            Err("type 'multi' exige au moins 1 réponse incorrecte"@)
        } else {
            Ok(())
        }
    } else {
        Err("type '"@ + kind
            + "' invalide (attendu 'single', 'multi', 'exact', 'number', 'grid_cells' ou 'grid_lines')"@)
    }
}

fn is_blank(s: &str) -> (r: bool)
    ensures
        r == (trim(s@).len() == 0),
{
    let t: String = trimmed(s);
    let c: Vec<char> = chars_of(t.as_str());
    c.len() == 0
}

proof fn lemma_first_blank(a: Seq<ImportAnswer>, i: int)
    requires
        0 <= i <= a.len(),
        forall|k: int| 0 <= k < i ==> trim((#[trigger] a[k]).text@).len() != 0,
    ensures
        i < a.len() && trim(a[i].text@).len() == 0 ==> first_blank(a) == Some(i),
        i == a.len() ==> first_blank(a) is None,
    decreases i,
{
    if i > 0 {
        let rest = a.drop_first();
        assert forall|k: int| 0 <= k < i - 1 implies trim((#[trigger] rest[k]).text@).len() != 0 by {
            assert(rest[k] == a[k + 1]);
        }
        lemma_first_blank(rest, i - 1);
        if i < a.len() {
            assert(rest[i - 1] == a[i]);
        }
    } else if a.len() > 0 {
        assert(a[0] == a[i]);
    }
}

fn count_correct_answers(answers: &[ImportAnswer]) -> (r: usize)
    ensures
        r == count_correct(answers@),
        r <= answers@.len(),
{
    let mut n: usize = 0;
    let mut i: usize = 0;
    while i < answers.len()
        invariant
            i <= answers@.len(),
            n == count_correct(answers@.subrange(0, i as int)),
            n <= i,
        decreases answers@.len() - i,
    {
        if answers[i].correct {
            n = n + 1;
        }
        i = i + 1;
        assert(answers@.subrange(0, i as int).drop_last() == answers@.subrange(0, i - 1));
    }
    assert(answers@.subrange(0, answers@.len() as int) == answers@);
    n
}

/// Checks a question of an import file (see `import_verdict`).
pub fn validate_question(q: &ImportQuestion, first_is_number: bool) -> (r: Result<(), String>)
    ensures
        r is Ok <==> import_verdict(*q, first_is_number) is Ok,
        r matches Err(m) ==> import_verdict(*q, first_is_number) == Err::<(), Seq<char>>(m@),
{
    proof {
        reveal_strlit("single");
        reveal_strlit("multi");
        reveal_strlit("exact");
        reveal_strlit("number");
        assert("single"@[0] != "exact"@[0]);
        assert("single"@[0] != "number"@[0]);
    }
    if is_blank(q.statement.as_str()) {
        return Err(string_of(&chars_of("énoncé vide")));
    }
    if !(1 <= q.difficulty && q.difficulty <= 5) {
        let mut m: Vec<char> = chars_of("difficulté ");
        push_int(&mut m, q.difficulty);
        push_str(&mut m, " hors de [1,5]");
        return Err(string_of(&m));
    }
    let mut i: usize = 0;
    while i < q.answers.len()
        invariant
            i <= q.answers@.len(),
            trim(q.statement@).len() != 0,
            1 <= q.difficulty <= 5,
            forall|k: int| 0 <= k < i ==> trim((#[trigger] q.answers@[k]).text@).len() != 0,
        decreases q.answers@.len() - i,
    {
        if is_blank(q.answers[i].text.as_str()) {
            proof {
                lemma_first_blank(q.answers@, i as int);
            }
            let mut m: Vec<char> = chars_of("texte de la réponse #");
            push_nat(&mut m, (i + 1) as u64);
            push_str(&mut m, " vide");
            assert(m@ =~= "texte de la réponse #"@ + nat_text((i + 1) as nat) + " vide"@);
            return Err(string_of(&m));
        }
        i = i + 1;
    }
    proof {
        lemma_first_blank(q.answers@, q.answers@.len() as int);
    }
    let n: usize = q.answers.len();
    let correct: usize = count_correct_answers(&q.answers);
    let kind: &str = q.kind.as_str();
    let k: Vec<char> = chars_of(kind);
    let drawn: bool = is_grid(kind);
    if is_free_input(kind) || drawn {
        if n != 1 {
            let mut m: Vec<char> = chars_of("type '");
            push_str(&mut m, kind);
            push_str(&mut m, "' exige exactement 1 réponse (la bonne), ");
            push_nat(&mut m, n as u64);
            push_str(&mut m, " fournies");
            return Err(string_of(&m));
        }
        if correct != 1 {
            let mut m: Vec<char> = chars_of("type '");
            push_str(&mut m, kind);
            push_str(&mut m, "' exige que sa réponse soit marquée correcte");
            return Err(string_of(&m));
        }
        if chars_eq_str(&k, "number") && !first_is_number {
            let mut m: Vec<char> = chars_of("type 'number' : la réponse '");
            let t: String = trimmed(q.answers[0].text.as_str());
            push_str(&mut m, t.as_str());
            push_str(&mut m, "' n'est pas un nombre");
            return Err(string_of(&m));
        }
        if drawn {
            let t: String = trimmed(q.answers[0].text.as_str());
            if let Err(e) = canonical_model(kind, t.as_str()) {
                let mut m: Vec<char> = chars_of("type '");
                push_str(&mut m, kind);
                push_str(&mut m, "' : ");
                push_str(&mut m, e.as_str());
                return Err(string_of(&m));
            }
        }
        return Ok(());
    }
    if n < 2 {
        let mut m: Vec<char> = chars_of("au moins 2 réponses requises, ");
        push_nat(&mut m, n as u64);
        push_str(&mut m, " fournies");
        return Err(string_of(&m));
    }
    if chars_eq_str(&k, "single") {
        if correct != 1 {
            let mut m: Vec<char> = chars_of("type 'single' exige exactement 1 réponse correcte, ");
            push_nat(&mut m, correct as u64);
            push_str(&mut m, " trouvées");
            return Err(string_of(&m));
        }
        Ok(())
    } else if chars_eq_str(&k, "multi") {
        if correct < 1 {
            return Err(string_of(&chars_of("type 'multi' exige au moins 1 réponse correcte")));
        }
        if n - correct < 1 {
            return Err(string_of(&chars_of("type 'multi' exige au moins 1 réponse incorrecte")));
        }
        Ok(())
    } else {
        let mut m: Vec<char> = chars_of("type '");
        push_str(&mut m, kind);
        push_str(
            &mut m,
            "' invalide (attendu 'single', 'multi', 'exact', 'number', 'grid_cells' ou 'grid_lines')",
        );
        Err(string_of(&m))
    }
}

// ===== Running an import ===========================================================

/// The name under which a subject of the file is created: its trimmed name,
/// when there is one and its weight is positive (`weight_positive`); else the
/// subject is skipped.
pub fn subject_to_create(name: &str, weight_positive: bool) -> (r: Option<String>)
    ensures
        (trim(name@).len() == 0 || !weight_positive) ==> r is None,
        (trim(name@).len() != 0 && weight_positive) ==> (r matches Some(n) && n@ == trim(name@)),
{
    let n: String = trimmed(name);
    let c: Vec<char> = chars_of(n.as_str());
    if c.len() == 0 || !weight_positive {
        None
    } else {
        Some(n)
    }
}

/// The refusal of a question whose subject exists neither in the file nor in
/// the bank.
pub fn unknown_subject_message(subject: &str) -> (r: String)
    ensures
        r@ == "matière '"@ + subject@ + "' non déclarée (ni dans le fichier, ni dans la base)"@,
{
    let mut m: Vec<char> = chars_of("matière '");
    push_str(&mut m, subject);
    push_str(&mut m, "' non déclarée (ni dans le fichier, ni dans la base)");
    string_of(&m)
}

/// The text of an answer as it is stored: trimmed; for the grid kinds, a
/// valid model is stored in its canonical writing.
pub open spec fn stored_text(kind: Seq<char>, t: Seq<char>) -> Seq<char> {
    if grid_kind(kind) {
        match spec_validate_model(kind, trim(t)) {
            Ok(m) => canonical_text(m),
            Err(_) => trim(t),
        }
    } else {
        trim(t)
    }
}

pub open spec fn tidy_answers(kind: Seq<char>, a: Seq<ImportAnswer>, b: Seq<ImportAnswer>) -> bool {
    &&& a.len() == b.len()
    &&& forall|k: int|
        0 <= k < a.len() ==> (#[trigger] b[k]).text@ == stored_text(kind, a[k].text@) && b[k].correct
            == a[k].correct
}

impl ImportQuestion {
    /// The question as it is stored: subject, statement, explanation and
    /// answers trimmed (a figure in its canonical writing); kind and
    /// difficulty as given.
    pub fn tidy(&self) -> (r: ImportQuestion)
        ensures
            r.subject@ == trim(self.subject@),
            r.kind@ == self.kind@,
            r.statement@ == trim(self.statement@),
            r.difficulty == self.difficulty,
            self.explanation is None ==> r.explanation is None,
            self.explanation matches Some(e) ==> (r.explanation matches Some(t) && t@ == trim(e@)),
            tidy_answers(self.kind@, self.answers@, r.answers@),
    {
        let mut answers: Vec<ImportAnswer> = Vec::new();
        let mut i: usize = 0;
        while i < self.answers.len()
            invariant
                i <= self.answers@.len(),
                answers@.len() == i,
                forall|k: int|
                    0 <= k < i ==> (#[trigger] answers@[k]).text@ == stored_text(
                        self.kind@,
                        self.answers@[k].text@,
                    ) && answers@[k].correct == self.answers@[k].correct,
            decreases self.answers@.len() - i,
        {
            let t: String = trimmed(self.answers[i].text.as_str());
            let text: String = if is_grid(self.kind.as_str()) {
                match canonical_model(self.kind.as_str(), t.as_str()) {
                    Ok(c) => c,
                    Err(_) => t,
                }
            } else {
                t
            };
            answers.push(ImportAnswer { text, correct: self.answers[i].correct });
            i = i + 1;
        }
        let explanation: Option<String> = match &self.explanation {
            Some(e) => Some(trimmed(e.as_str())),
            None => None,
        };
        ImportQuestion {
            subject: trimmed(self.subject.as_str()),
            kind: self.kind.clone(),
            statement: trimmed(self.statement.as_str()),
            answers,
            explanation,
            difficulty: self.difficulty,
        }
    }
}

impl ImportReport {
    /// A subject of the file was created (`created`) or already existed.
    pub fn count_subject(&mut self, created: bool)
        requires
            old(self).subjects_created < usize::MAX,
            old(self).subjects_skipped < usize::MAX,
        ensures
            created ==> final(self).subjects_created == old(self).subjects_created + 1
                && final(self).subjects_skipped == old(self).subjects_skipped,
            !created ==> final(self).subjects_skipped == old(self).subjects_skipped + 1
                && final(self).subjects_created == old(self).subjects_created,
            final(self).questions_imported == old(self).questions_imported,
            final(self).questions_failed@ == old(self).questions_failed@,
    {
        if created {
            self.subjects_created = self.subjects_created + 1;
        } else {
            self.subjects_skipped = self.subjects_skipped + 1;
        }
    }

    /// One more question of the file went into the bank.
    pub fn count_imported(&mut self)
        requires
            old(self).questions_imported < usize::MAX,
        ensures
            final(self).questions_imported == old(self).questions_imported + 1,
            final(self).subjects_created == old(self).subjects_created,
            final(self).subjects_skipped == old(self).subjects_skipped,
            final(self).questions_failed@ == old(self).questions_failed@,
    {
        self.questions_imported = self.questions_imported + 1;
    }

    /// The question at `index` of the file was refused, for `why`.
    pub fn count_failed(&mut self, index: usize, why: String)
        ensures
            final(self).questions_failed@ == old(self).questions_failed@.push((index, why)),
            final(self).questions_imported == old(self).questions_imported,
            final(self).subjects_created == old(self).subjects_created,
            final(self).subjects_skipped == old(self).subjects_skipped,
    {
        self.questions_failed.push((index, why));
    }
}

// ===== The plan of an import ======================================================

/// The id of the first subject of the bank named `name`.
pub open spec fn subject_id_of(known: Seq<(i64, String)>, name: Seq<char>) -> Option<i64>
    decreases known.len(),
{
    if known.len() == 0 {
        None
    } else {
        match subject_id_of(known.drop_last(), name) {
            Some(id) => Some(id),
            None => if known.last().1@ == name {
                Some(known.last().0)
            } else {
                None
            },
        }
    }
}

/// Where a question of the file goes: the subject it is filed under, or why
/// it is refused. `first_is_number` as in `import_verdict`; `known` are the
/// subjects of the bank once those of the file are in.
#[verifier::opaque]
pub open spec fn question_fate(
    q: ImportQuestion,
    first_is_number: bool,
    known: Seq<(i64, String)>,
) -> Result<i64, Seq<char>> {
    match import_verdict(q, first_is_number) {
        Err(e) => Err(e),
        Ok(_) => match subject_id_of(known, trim(q.subject@)) {
            Some(id) => Ok(id),
            None => Err(
                "matière '"@ + q.subject@ + "' non déclarée (ni dans le fichier, ni dans la base)"@,
            ),
        },
    }
}

/// The questions among the first `n` that are refused, by index, with why.
pub open spec fn refused(
    qs: Seq<ImportQuestion>,
    nums: Seq<bool>,
    known: Seq<(i64, String)>,
    n: int,
) -> Seq<(int, Seq<char>)>
    decreases n,
{
    if n <= 0 {
        Seq::empty()
    } else {
        let rest = refused(qs, nums, known, n - 1);
        match question_fate(qs[n - 1], nums[n - 1], known) {
            Err(e) => rest.push((n - 1, e)),
            Ok(_) => rest,
        }
    }
}

/// The questions among the first `n` that go into the bank, by index, with
/// their subject.
pub open spec fn admitted(
    qs: Seq<ImportQuestion>,
    nums: Seq<bool>,
    known: Seq<(i64, String)>,
    n: int,
) -> Seq<(int, i64)>
    decreases n,
{
    if n <= 0 {
        Seq::empty()
    } else {
        let rest = admitted(qs, nums, known, n - 1);
        match question_fate(qs[n - 1], nums[n - 1], known) {
            Ok(id) => rest.push((n - 1, id)),
            Err(_) => rest,
        }
    }
}

/// `t` is `q` as it is stored (see `ImportQuestion::tidy`).
pub open spec fn tidied(q: ImportQuestion, t: ImportQuestion) -> bool {
    &&& t.subject@ == trim(q.subject@)
    &&& t.kind@ == q.kind@
    &&& t.statement@ == trim(q.statement@)
    &&& t.difficulty == q.difficulty
    &&& q.explanation is None ==> t.explanation is None
    &&& q.explanation matches Some(e) ==> (t.explanation matches Some(x) && x@ == trim(e@))
    &&& tidy_answers(q.kind@, q.answers@, t.answers@)
}

fn find_subject(known: &[(i64, String)], name: &str) -> (r: Option<i64>)
    ensures
        r == subject_id_of(known@, name@),
{
    let k: Vec<char> = chars_of(name);
    let mut found: Option<i64> = None;
    let mut i: usize = 0;
    while i < known.len()
        invariant
            i <= known@.len(),
            k@ == name@,
            found == subject_id_of(known@.subrange(0, i as int), name@),
        decreases known@.len() - i,
    {
        assert(known@.subrange(0, i + 1).drop_last() == known@.subrange(0, i as int));
        if found.is_none() {
            let c: Vec<char> = chars_of(known[i].1.as_str());
            if same_chars(&c, &k) {
                found = Some(known[i].0);
            }
        }
        i = i + 1;
    }
    assert(known@.subrange(0, known@.len() as int) == known@);
    found
}

/// The plan of an import: the questions that go into the bank (their index in
/// the file, their subject, and the question as stored), and those refused
/// (their index and why), both in the order of the file. `numbers[i]` tells
/// whether the first answer of question `i` reads as a number; `known` are
/// the subjects of the bank, `(id, name)`, once those of the file are in.
pub fn plan_import(
    questions: &[ImportQuestion],
    numbers: &[bool],
    known: &[(i64, String)],
) -> (r: (Vec<(usize, i64, ImportQuestion)>, Vec<(usize, String)>))
    requires
        numbers@.len() == questions@.len(),
    ensures
        r.0@.len() == admitted(questions@, numbers@, known@, questions@.len() as int).len(),
        forall|k: int|
            0 <= k < r.0@.len() ==> {
                let a = admitted(questions@, numbers@, known@, questions@.len() as int)[k];
                &&& (#[trigger] r.0@[k]).0 as int == a.0
                &&& r.0@[k].1 == a.1
                &&& 0 <= a.0 < questions@.len()
                &&& tidied(questions@[a.0], r.0@[k].2)
            },
        r.1@.len() == refused(questions@, numbers@, known@, questions@.len() as int).len(),
        forall|k: int|
            0 <= k < r.1@.len() ==> {
                let f = refused(questions@, numbers@, known@, questions@.len() as int)[k];
                (#[trigger] r.1@[k]).0 as int == f.0 && r.1@[k].1@ == f.1
            },
{
    let mut go: Vec<(usize, i64, ImportQuestion)> = Vec::new();
    let mut refuse: Vec<(usize, String)> = Vec::new();
    let mut i: usize = 0;
    while i < questions.len()
        invariant
            i <= questions@.len(),
            numbers@.len() == questions@.len(),
            go@.len() == admitted(questions@, numbers@, known@, i as int).len(),
            forall|k: int|
                0 <= k < go@.len() ==> {
                    let a = admitted(questions@, numbers@, known@, i as int)[k];
                    &&& (#[trigger] go@[k]).0 as int == a.0
                    &&& go@[k].1 == a.1
                    &&& 0 <= a.0 < i
                    &&& tidied(questions@[a.0], go@[k].2)
                },
            refuse@.len() == refused(questions@, numbers@, known@, i as int).len(),
            forall|k: int|
                0 <= k < refuse@.len() ==> {
                    let f = refused(questions@, numbers@, known@, i as int)[k];
                    (#[trigger] refuse@[k]).0 as int == f.0 && refuse@[k].1@ == f.1
                },
        decreases questions@.len() - i,
    {
        let q: &ImportQuestion = &questions[i];
        proof {
            reveal(question_fate);
        }
        let ghost before_go = go@;
        let ghost before_refuse = refuse@;
        match validate_question(q, numbers[i]) {
            Err(e) => {
                refuse.push((i, e));
            },
            Ok(()) => {
                let t: ImportQuestion = q.tidy();
                match find_subject(known, t.subject.as_str()) {
                    Some(id) => {
                        assert(tidied(*q, t));
                        go.push((i, id, t));
                    },
                    None => {
                        refuse.push((i, unknown_subject_message(q.subject.as_str())));
                    },
                }
            },
        }
        proof {
            let n = i + 1;
            assert(questions@[n - 1] == *q);
            let pa = admitted(questions@, numbers@, known@, i as int);
            let pr = refused(questions@, numbers@, known@, i as int);
            assert forall|k: int| 0 <= k < go@.len() implies {
                let a = admitted(questions@, numbers@, known@, n as int)[k];
                &&& (#[trigger] go@[k]).0 as int == a.0
                &&& go@[k].1 == a.1
                &&& 0 <= a.0 < n
                &&& tidied(questions@[a.0], go@[k].2)
            } by {
                if k < before_go.len() {
                    assert(go@[k] == before_go[k]);
                    assert(admitted(questions@, numbers@, known@, n as int)[k] == pa[k]);
                }
            }
            assert forall|k: int| 0 <= k < refuse@.len() implies {
                let f = refused(questions@, numbers@, known@, n as int)[k];
                (#[trigger] refuse@[k]).0 as int == f.0 && refuse@[k].1@ == f.1
            } by {
                if k < before_refuse.len() {
                    assert(refuse@[k] == before_refuse[k]);
                    assert(refused(questions@, numbers@, known@, n as int)[k] == pr[k]);
                }
            }
        }
        i = i + 1;
    }
    (go, refuse)
}

/// Every question of a file is either imported or refused, and only once:
/// the imported and the refused together are as many as the questions; the
/// refused ones come in increasing order of their index, and a question is
/// refused exactly when it breaks a rule or its subject is unknown.
pub proof fn lemma_import_tally(
    qs: Seq<ImportQuestion>,
    nums: Seq<bool>,
    known: Seq<(i64, String)>,
    n: int,
)
    requires
        0 <= n <= qs.len(),
        nums.len() == qs.len(),
    ensures
        admitted(qs, nums, known, n).len() + refused(qs, nums, known, n).len() == n,
        forall|k: int, l: int|
            0 <= k < l < refused(qs, nums, known, n).len() ==> (#[trigger] refused(
                qs,
                nums,
                known,
                n,
            )[k]).0 < (#[trigger] refused(qs, nums, known, n)[l]).0,
        forall|k: int, l: int|
            0 <= k < l < admitted(qs, nums, known, n).len() ==> (#[trigger] admitted(
                qs,
                nums,
                known,
                n,
            )[k]).0 < (#[trigger] admitted(qs, nums, known, n)[l]).0,
        forall|i: int|
            0 <= i < n ==> (question_fate(#[trigger] qs[i], nums[i], known) is Err <==> exists|k: int|
                0 <= k < refused(qs, nums, known, n).len() && refused(qs, nums, known, n)[k].0 == i),
        forall|i: int|
            0 <= i < n ==> (question_fate(#[trigger] qs[i], nums[i], known) is Ok <==> exists|k: int|
                0 <= k < admitted(qs, nums, known, n).len() && admitted(qs, nums, known, n)[k].0
                    == i),
    decreases n,
{
    if n > 0 {
        lemma_import_tally(qs, nums, known, n - 1);
        let pr = refused(qs, nums, known, n - 1);
        let pa = admitted(qs, nums, known, n - 1);
        let r = refused(qs, nums, known, n);
        let a = admitted(qs, nums, known, n);
        assert forall|k: int| 0 <= k < pr.len() implies 0 <= #[trigger] pr[k].0 < n - 1 by {
            lemma_refused_below(qs, nums, known, n - 1, k);
        }
        assert forall|k: int| 0 <= k < pa.len() implies 0 <= #[trigger] pa[k].0 < n - 1 by {
            lemma_admitted_below(qs, nums, known, n - 1, k);
        }
        assert forall|k: int, l: int| 0 <= k < l < r.len() implies (#[trigger] r[k]).0 < (
        #[trigger] r[l]).0 by {
            if l < pr.len() {
                assert(r[k] == pr[k] && r[l] == pr[l]);
            } else {
                assert(r[k] == pr[k]);
            }
        }
        assert forall|k: int, l: int| 0 <= k < l < a.len() implies (#[trigger] a[k]).0 < (
        #[trigger] a[l]).0 by {
            if l < pa.len() {
                assert(a[k] == pa[k] && a[l] == pa[l]);
            } else {
                assert(a[k] == pa[k]);
            }
        }
        assert forall|i: int| 0 <= i < n implies (question_fate(#[trigger] qs[i], nums[i], known) is Err
            <==> exists|k: int| 0 <= k < r.len() && r[k].0 == i) by {
            if i < n - 1 {
                if question_fate(qs[i], nums[i], known) is Err {
                    let k = choose|k: int| 0 <= k < pr.len() && pr[k].0 == i;
                    assert(r[k] == pr[k]);
                }
                if exists|k: int| 0 <= k < r.len() && r[k].0 == i {
                    let k = choose|k: int| 0 <= k < r.len() && r[k].0 == i;
                    if k < pr.len() {
                        assert(r[k] == pr[k]);
                    }
                }
            } else {
                if question_fate(qs[i], nums[i], known) is Err {
                    assert(r[pr.len() as int].0 == i);
                }
                if exists|k: int| 0 <= k < r.len() && r[k].0 == i {
                    let k = choose|k: int| 0 <= k < r.len() && r[k].0 == i;
                    if k < pr.len() {
                        assert(r[k] == pr[k]);
                    }
                }
            }
        }
        assert forall|i: int| 0 <= i < n implies (question_fate(#[trigger] qs[i], nums[i], known) is Ok
            <==> exists|k: int| 0 <= k < a.len() && a[k].0 == i) by {
            if i < n - 1 {
                if question_fate(qs[i], nums[i], known) is Ok {
                    let k = choose|k: int| 0 <= k < pa.len() && pa[k].0 == i;
                    assert(a[k] == pa[k]);
                }
                if exists|k: int| 0 <= k < a.len() && a[k].0 == i {
                    let k = choose|k: int| 0 <= k < a.len() && a[k].0 == i;
                    if k < pa.len() {
                        assert(a[k] == pa[k]);
                    }
                }
            } else {
                if question_fate(qs[i], nums[i], known) is Ok {
                    assert(a[pa.len() as int].0 == i);
                }
                if exists|k: int| 0 <= k < a.len() && a[k].0 == i {
                    let k = choose|k: int| 0 <= k < a.len() && a[k].0 == i;
                    if k < pa.len() {
                        assert(a[k] == pa[k]);
                    }
                }
            }
        }
    }
}

proof fn lemma_refused_below(
    qs: Seq<ImportQuestion>,
    nums: Seq<bool>,
    known: Seq<(i64, String)>,
    n: int,
    k: int,
)
    requires
        0 <= n,
        0 <= k < refused(qs, nums, known, n).len(),
    ensures
        0 <= refused(qs, nums, known, n)[k].0 < n,
    decreases n,
{
    if n > 0 {
        let pr = refused(qs, nums, known, n - 1);
        if k < pr.len() {
            lemma_refused_below(qs, nums, known, n - 1, k);
            assert(refused(qs, nums, known, n)[k] == pr[k]);
        }
    }
}

proof fn lemma_admitted_below(
    qs: Seq<ImportQuestion>,
    nums: Seq<bool>,
    known: Seq<(i64, String)>,
    n: int,
    k: int,
)
    requires
        0 <= n,
        0 <= k < admitted(qs, nums, known, n).len(),
    ensures
        0 <= admitted(qs, nums, known, n)[k].0 < n,
    decreases n,
{
    if n > 0 {
        let pa = admitted(qs, nums, known, n - 1);
        if k < pa.len() {
            lemma_admitted_below(qs, nums, known, n - 1, k);
            assert(admitted(qs, nums, known, n)[k] == pa[k]);
        }
    }
}

} // verus!
