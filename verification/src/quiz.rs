//! Questions and their grading.
//!
//! The kind stored with a question decides which form of answer counts: the
//! ticked choices (`single`, `multi`), the typed text (`exact`, `number`), or
//! the drawn marks (`grid_cells`, `grid_lines`). A form of answer that does not
//! fit the kind is a forged form, and is wrong.

use rand::seq::SliceRandom;
use vstd::prelude::*;

use crate::editor::{cell_marks, cell_toggle, edge_marks, edge_toggle, toggles, Toggle};
use crate::grid::{
    frame_aspect, is_grid_kind, spec_from_tokens, spec_parse_as, string_views,
    marks_of, FigureView, serialize_text, svg_blank_text, svg_review_text, svg_text, Grid, GridView,
    KIND_CELLS, KIND_LINES,
};
use crate::text::{
    ascii_lowered, ascii_text, chars_eq_str, chars_of, int_text, lemma_trim_keeps_ascii, lower_text,
    str_to_lowercase, trim, trimmed,
};

verus! {

/// A question as it is put to the child.
#[derive(Debug, Clone)]
pub struct QuizQuestion {
    pub id: i64,
    pub kind: String,
    pub statement: String,
    /// The options to choose from; empty where the answer is typed or drawn.
    pub answers: Vec<QuizAnswer>,
    /// The figure to copy and the blank grid, for the grid kinds only.
    pub grid: Option<GridPrompt>,
}

#[derive(Debug, Clone)]
pub struct QuizAnswer {
    pub id: i64,
    pub text: String,
}

/// All the page needs to set a copying exercise, already drawn.
#[derive(Debug, Clone)]
pub struct GridPrompt {
    pub w: i64,
    pub h: i64,
    /// Width/height ratio of the frame, margin of the drawing included.
    pub aspect: String,
    pub model_svg: String,
    pub blank_svg: String,
    pub toggles: Vec<Toggle>,
    pub is_cells: bool,
}

/// What the child gave for ONE question.
#[derive(Debug, Clone)]
pub enum Given {
    /// `single` / `multi`: the ids of the ticked answers.
    Choices(Vec<i64>),
    /// `exact` / `number`: the typed text.
    Text(String),
    /// `grid_cells` / `grid_lines`: the marked cells or segments, token by
    /// token, in the order the browser sent them.
    Grid(Vec<String>),
}

impl Default for Given {
    /// A skipped question: nothing ticked. Always wrong.
    fn default() -> (r: Given)
        ensures
            r matches Given::Choices(v) && v@.len() == 0,
    {
        Given::Choices(Vec::new())
    }
}

/// One stored answer of a question: the option, or for the kinds that store
/// a single answer, THE right answer.
#[derive(Debug, Clone)]
pub struct AnswerRow {
    pub id: i64,
    pub text: String,
    /// `1` when the answer is right.
    pub is_correct: i64,
}

#[derive(Debug, Clone)]
pub struct GradedQuestion {
    pub question_id: i64,
    pub kind: String,
    pub statement: String,
    pub explanation: Option<String>,
    pub answers: Vec<GradedAnswer>,
    /// What the child typed or drew; `None` for the choice kinds and when
    /// nothing was given.
    pub given_text: Option<String>,
    /// The model and the child's drawing side by side, for the grid kinds.
    pub grid: Option<GridReview>,
    pub correct: bool,
}

/// The correction of a copied figure: the model, and the child's drawing in
/// three colours (right / extra / missed).
#[derive(Debug, Clone)]
pub struct GridReview {
    pub w: i64,
    pub h: i64,
    pub aspect: String,
    pub model_svg: String,
    pub given_svg: String,
}

#[derive(Debug, Clone)]
pub struct GradedAnswer {
    pub answer_id: i64,
    pub text: String,
    pub is_correct: bool,
    pub was_chosen: bool,
}

// ===== Kinds ==================================================================

pub open spec fn free_kind(kind: Seq<char>) -> bool {
    kind == "exact"@ || kind == "number"@
}

pub open spec fn grid_kind(kind: Seq<char>) -> bool {
    kind == KIND_CELLS@ || kind == KIND_LINES@
}

pub open spec fn choice_kind(kind: Seq<char>) -> bool {
    kind == "single"@ || kind == "multi"@
}

/// Kinds whose answer is typed on the keyboard.
pub fn is_free_input(kind: &str) -> (r: bool)
    ensures
        r == free_kind(kind@),
{
    let k: Vec<char> = chars_of(kind);
    chars_eq_str(&k, "exact") || chars_eq_str(&k, "number")
}

/// Kinds where the child copies a figure on a grid.
pub fn is_grid(kind: &str) -> (r: bool)
    ensures
        r == grid_kind(kind@),
{
    is_grid_kind(kind)
}

/// Kinds whose single stored answer is THE right answer rather than an
/// option: exactly one answer, marked right.
pub fn stores_single_answer(kind: &str) -> (r: bool)
    ensures
        r == (free_kind(kind@) || grid_kind(kind@)),
{
    is_free_input(kind) || is_grid(kind)
}

/// Whether the answer must stay on the server: a typed answer is secret, a
/// model to copy is the statement itself.
pub fn answer_is_secret(kind: &str) -> (r: bool)
    ensures
        r == free_kind(kind@),
{
    is_free_input(kind)
}

// ===== Typed answers ==========================================================

/// Two texts are the same answer: ends trimmed, case ignored (Unicode
/// lowercase), accents significant.
pub open spec fn text_same(given: Seq<char>, expected: Seq<char>) -> bool {
    lower_text(trim(given)) == lower_text(trim(expected))
}

/// `exact`: ends trimmed, case ignored; accents count.
pub fn text_matches(given: &str, expected: &str) -> (r: bool)
    ensures
        r == text_same(given@, expected@),
{
    let a: String = trimmed(given);
    let b: String = trimmed(expected);
    let la: String = str_to_lowercase(a.as_str());
    let lb: String = str_to_lowercase(b.as_str());
    la == lb
}

/// For ASCII texts, a typed answer matches exactly when the two trimmed texts
/// agree once `A`–`Z` are folded to `a`–`z`.
pub proof fn lemma_ascii_answers_fold_case(given: Seq<char>, expected: Seq<char>)
    requires
        ascii_text(given),
        ascii_text(expected),
    ensures
        text_same(given, expected) <==> ascii_lowered(trim(given)) == ascii_lowered(trim(expected)),
{
    lemma_trim_keeps_ascii(given);
    lemma_trim_keeps_ascii(expected);
}

// ===== Grading one question ===================================================

/// The index of the first right answer.
pub open spec fn first_correct(rows: Seq<AnswerRow>) -> Option<int>
    decreases rows.len(),
{
    if rows.len() == 0 {
        None
    } else if rows[0].is_correct == 1 {
        Some(0)
    } else {
        match first_correct(rows.drop_first()) {
            Some(i) => Some(i + 1),
            None => None,
        }
    }
}

/// The ids of the right answers.
pub open spec fn correct_ids(rows: Seq<AnswerRow>) -> Set<i64> {
    Set::new(
        |id: i64| exists|i: int| 0 <= i < rows.len() && rows[i].is_correct == 1 && rows[i].id == id,
    )
}

/// The figure to copy: the first right answer, read as a figure of the kind.
pub open spec fn grid_model(kind: Seq<char>, rows: Seq<AnswerRow>) -> Option<GridView> {
    match first_correct(rows) {
        Some(i) => match spec_parse_as(kind, rows[i].text@) {
            Ok(g) => Some(g),
            Err(_) => None,
        },
        None => None,
    }
}

pub open spec fn given_tokens(given: Given) -> Seq<Seq<char>> {
    match given {
        Given::Grid(t) => string_views(t@),
        _ => Seq::empty(),
    }
}

pub open spec fn chosen_ids(given: Given) -> Set<i64> {
    match given {
        Given::Choices(ids) => ids@.to_set(),
        _ => Set::empty(),
    }
}

/// The child's drawing, on the grid of the model.
pub open spec fn drawn_view(kind: Seq<char>, model: GridView, given: Given) -> GridView {
    spec_from_tokens(kind, model.w, model.h, given_tokens(given))
}

/// Whether the answer is right. For a `number` question, `numbers_equal` is
/// whether the typed text and the first right answer are the same number.
pub open spec fn verdict(
    kind: Seq<char>,
    given: Given,
    rows: Seq<AnswerRow>,
    numbers_equal: bool,
) -> bool {
    if grid_kind(kind) {
        match grid_model(kind, rows) {
            Some(m) => drawn_view(kind, m, given) == m,
            None => false,
        }
    } else if choice_kind(kind) {
        match given {
            Given::Choices(ids) => ids@.to_set() == correct_ids(rows),
            _ => false,
        }
    } else if free_kind(kind) {
        match given {
            Given::Text(t) => match first_correct(rows) {
                Some(i) => if kind == "number"@ {
                    numbers_equal
                } else {
                    text_same(t@, rows[i].text@)
                },
                None => false,
            },
            _ => false,
        }
    } else {
        false
    }
}

pub open spec fn aspect_text(w: i64, h: i64) -> Seq<char> {
    int_text(w * 10 + 4) + " / "@ + int_text(h * 10 + 4)
}

/// The review of a drawing: the model and the drawing, as any canonical
/// writing of them draws.
pub open spec fn review_of(rev: GridReview, model: GridView, drawn: GridView) -> bool {
    &&& rev.w == model.w
    &&& rev.h == model.h
    &&& rev.aspect@ == aspect_text(model.w, model.h)
    &&& forall|m: Grid| m.wf() && m@ == model ==> rev.model_svg@ == #[trigger] svg_text(m)
    &&& forall|m: Grid, d: Grid|
        m.wf() && m@ == model && d.wf() && d@ == drawn ==> rev.given_svg@
            == #[trigger] svg_review_text(m, Some(d))
}

/// A stored answer, graded. For the kinds with a single stored answer,
/// `was_chosen` means that the child hit it.
pub open spec fn graded_answer(
    a: GradedAnswer,
    row: AnswerRow,
    kind: Seq<char>,
    given: Given,
    correct: bool,
) -> bool {
    &&& a.answer_id == row.id
    &&& a.text@ == row.text@
    &&& a.is_correct == (row.is_correct == 1)
    &&& a.was_chosen == if free_kind(kind) || grid_kind(kind) {
        row.is_correct == 1 && correct
    } else {
        chosen_ids(given).contains(row.id)
    }
}

/// What the child typed or drew, as the history keeps it.
pub open spec fn given_text_of(
    t: Option<String>,
    kind: Seq<char>,
    given: Given,
    rows: Seq<AnswerRow>,
) -> bool {
    if grid_kind(kind) {
        match grid_model(kind, rows) {
            Some(m) => {
                let d = drawn_view(kind, m, given);
                if marks_of(d.figure) == 0 {
                    t is None
                } else {
                    t matches Some(s) && forall|g: Grid|
                        g.wf() && g@ == d ==> s@ == #[trigger] serialize_text(g)
                }
            },
            None => t is None,
        }
    } else if free_kind(kind) {
        match given {
            Given::Text(typed) => if trim(typed@).len() == 0 {
                t is None
            } else {
                t matches Some(s) && s@ == typed@
            },
            _ => t is None,
        }
    } else {
        t is None
    }
}

/// The index of the first right answer.
pub fn first_correct_row(rows: &[AnswerRow]) -> (r: Option<usize>)
    ensures
        r matches Some(i) ==> i < rows@.len() && first_correct(rows@) == Some(i as int),
        r is None ==> first_correct(rows@) is None,
{
    let mut i: usize = 0;
    while i < rows.len()
        invariant
            i <= rows@.len(),
            forall|k: int| 0 <= k < i ==> rows@[k].is_correct != 1,
        decreases rows@.len() - i,
    {
        if rows[i].is_correct == 1 {
            proof {
                lemma_first_correct(rows@, i as int);
            }
            return Some(i);
        }
        i = i + 1;
    }
    proof {
        lemma_first_correct(rows@, rows@.len() as int);
    }
    None
}

proof fn lemma_first_correct(rows: Seq<AnswerRow>, i: int)
    requires
        0 <= i <= rows.len(),
        forall|k: int| 0 <= k < i ==> rows[k].is_correct != 1,
    ensures
        i < rows.len() && rows[i].is_correct == 1 ==> first_correct(rows) == Some(i),
        i == rows.len() ==> first_correct(rows) is None,
    decreases i,
{
    if i > 0 {
        let rest = rows.drop_first();
        assert forall|k: int| 0 <= k < i - 1 implies rest[k].is_correct != 1 by {
            assert(rest[k] == rows[k + 1]);
        }
        lemma_first_correct(rest, i - 1);
        if i < rows.len() {
            assert(rest[i - 1] == rows[i]);
        }
    }
}

fn has_id(ids: &[i64], id: i64) -> (r: bool)
    ensures
        r == ids@.contains(id),
{
    let mut i: usize = 0;
    while i < ids.len()
        invariant
            i <= ids@.len(),
            forall|k: int| 0 <= k < i ==> ids@[k] != id,
        decreases ids@.len() - i,
    {
        if ids[i] == id {
            assert(ids@[i as int] == id);
            return true;
        }
        i = i + 1;
    }
    false
}

fn is_correct_id(rows: &[AnswerRow], id: i64) -> (r: bool)
    ensures
        r == correct_ids(rows@).contains(id),
{
    let mut i: usize = 0;
    while i < rows.len()
        invariant
            i <= rows@.len(),
            forall|k: int| 0 <= k < i ==> !(rows@[k].is_correct == 1 && rows@[k].id == id),
        decreases rows@.len() - i,
    {
        if rows[i].is_correct == 1 && rows[i].id == id {
            return true;
        }
        i = i + 1;
    }
    false
}

/// Whether the ticked ids are exactly the right ones.
fn same_choice(ids: &[i64], rows: &[AnswerRow]) -> (r: bool)
    ensures
        r == (ids@.to_set() == correct_ids(rows@)),
{
    let mut i: usize = 0;
    while i < ids.len()
        invariant
            i <= ids@.len(),
            forall|k: int| 0 <= k < i ==> correct_ids(rows@).contains(#[trigger] ids@[k]),
        decreases ids@.len() - i,
    {
        if !is_correct_id(rows, ids[i]) {
            assert(ids@.to_set().contains(ids@[i as int]));
            return false;
        }
        i = i + 1;
    }
    let mut j: usize = 0;
    while j < rows.len()
        invariant
            j <= rows@.len(),
            forall|k: int| 0 <= k < ids@.len() ==> correct_ids(rows@).contains(#[trigger] ids@[k]),
            forall|k: int|
                0 <= k < j && rows@[k].is_correct == 1 ==> ids@.contains(#[trigger] rows@[k].id),
        decreases rows@.len() - j,
    {
        if rows[j].is_correct == 1 && !has_id(ids, rows[j].id) {
            assert(correct_ids(rows@).contains(rows@[j as int].id));
            return false;
        }
        j = j + 1;
    }
    assert forall|x: i64| ids@.to_set().contains(x) <==> correct_ids(rows@).contains(x) by {
        if ids@.to_set().contains(x) {
            let k = choose|k: int| 0 <= k < ids@.len() && ids@[k] == x;
            assert(correct_ids(rows@).contains(ids@[k]));
        }
        if correct_ids(rows@).contains(x) {
            let k = choose|k: int| 0 <= k < rows@.len() && rows@[k].is_correct == 1 && rows@[k].id == x;
            assert(ids@.contains(rows@[k].id));
        }
    }
    assert(ids@.to_set() =~= correct_ids(rows@));
    true
}

proof fn lemma_review_of(rev: GridReview, model: Grid, drawn: Grid)
    requires
        model.wf(),
        drawn.wf(),
        rev.w == model.w,
        rev.h == model.h,
        rev.aspect@ == aspect_text(model.w, model.h),
        rev.model_svg@ == svg_text(model),
        rev.given_svg@ == svg_review_text(model, Some(drawn)),
    ensures
        review_of(rev, model@, drawn@),
{
    assert forall|m: Grid| m.wf() && m@ == model@ implies rev.model_svg@ == #[trigger] svg_text(
        m,
    ) by {
        crate::grid::lemma_same_writing(m, model);
    }
    assert forall|m: Grid, d: Grid|
        m.wf() && m@ == model@ && d.wf() && d@ == drawn@ implies rev.given_svg@
            == #[trigger] svg_review_text(m, Some(d)) by {
        crate::grid::lemma_same_writing(m, model);
        crate::grid::lemma_same_writing(d, drawn);
        assert(svg_review_text(m, Some(d)) == svg_review_text(model, Some(d)));
    }
}

/// The review of a drawing against its model, and what the history keeps of
/// the drawing.
fn review(model: &Grid, drawn: &Grid) -> (r: (GridReview, Option<String>))
    requires
        model.wf(),
        drawn.wf(),
        2 <= model.w <= 12,
        2 <= model.h <= 12,
        drawn.w == model.w,
        drawn.h == model.h,
    ensures
        review_of(r.0, model@, drawn@),
        marks_of(drawn@.figure) == 0 ==> r.1 is None,
        marks_of(drawn@.figure) != 0 ==> (r.1 matches Some(s) && forall|g: Grid|
            g.wf() && g@ == drawn@ ==> s@ == #[trigger] serialize_text(g)),
{
    let rev = GridReview {
        w: model.w,
        h: model.h,
        aspect: frame_aspect(model.w, model.h),
        model_svg: model.svg(),
        given_svg: model.svg_review(Some(drawn)),
    };
    proof {
        lemma_review_of(rev, *model, *drawn);
    }
    let text: Option<String> = if drawn.is_empty() {
        None
    } else {
        Some(drawn.serialize())
    };
    proof {
        assert forall|g: Grid| g.wf() && g@ == drawn@ && text is Some implies text.unwrap()@
            == #[trigger] serialize_text(g) by {
            crate::grid::lemma_same_writing(g, *drawn);
        }
    }
    (rev, text)
}

/// A question with ticked choices (`single`, `multi`) is right exactly when
/// the ticked ids are the ids of the answers marked right: every ticked id is
/// one of a right answer, and every right answer is ticked.
pub proof fn lemma_choices_right_iff_all_and_only(
    kind: Seq<char>,
    given: Given,
    rows: Seq<AnswerRow>,
    numbers_equal: bool,
)
    requires
        kind == "single"@ || kind == "multi"@,
        given is Choices,
    ensures
        verdict(kind, given, rows, numbers_equal) <==> {
            &&& forall|x: i64| #[trigger] given->Choices_0@.contains(x) ==> exists|k: int|
                0 <= k < rows.len() && rows[k].id == x && rows[k].is_correct == 1
            &&& forall|k: int|
                0 <= k < rows.len() && (#[trigger] rows[k]).is_correct == 1 ==> given->Choices_0@.contains(
                    rows[k].id,
                )
        },
{
    reveal_strlit("single");
    reveal_strlit("multi");
    reveal_strlit("grid_cells");
    reveal_strlit("grid_lines");
    assert(KIND_CELLS@ == "grid_cells"@);
    assert(KIND_LINES@ == "grid_lines"@);
    assert(KIND_CELLS@.len() == 10 && KIND_LINES@.len() == 10);
    assert(kind.len() != 10);
    assert(!grid_kind(kind));
    assert(choice_kind(kind));
    let ids = given->Choices_0@;
    let right = forall|x: i64| #[trigger] ids.contains(x) ==> exists|k: int|
        0 <= k < rows.len() && rows[k].id == x && rows[k].is_correct == 1;
    let all = forall|k: int|
        0 <= k < rows.len() && (#[trigger] rows[k]).is_correct == 1 ==> ids.contains(rows[k].id);
    if verdict(kind, given, rows, numbers_equal) {
        assert(ids.to_set() == correct_ids(rows));
        assert forall|x: i64| #[trigger] ids.contains(x) implies exists|k: int|
            0 <= k < rows.len() && rows[k].id == x && rows[k].is_correct == 1 by {
            assert(ids.to_set().contains(x));
            assert(correct_ids(rows).contains(x));
        }
        assert forall|k: int| 0 <= k < rows.len() && (#[trigger] rows[k]).is_correct == 1 implies ids.contains(
            rows[k].id,
        ) by {
            assert(correct_ids(rows).contains(rows[k].id));
            assert(ids.to_set().contains(rows[k].id));
        }
    }
    if right && all {
        assert forall|x: i64| #[trigger] ids.to_set().contains(x) == correct_ids(rows).contains(x) by {
            if ids.to_set().contains(x) {
                assert(ids.contains(x));
            }
            if correct_ids(rows).contains(x) {
                let k = choose|k: int| 0 <= k < rows.len() && rows[k].is_correct == 1 && rows[k].id == x;
                assert(ids.contains(rows[k].id));
            }
        }
        assert(ids.to_set() =~= correct_ids(rows));
    }
}

/// The first right answer: it is marked right and none before it is; with no
/// right answer there is none.
pub proof fn lemma_first_correct_is_first(rows: Seq<AnswerRow>)
    ensures
        first_correct(rows) matches Some(i) ==> 0 <= i < rows.len() && rows[i].is_correct == 1 && forall|
            j: int,
        | 0 <= j < i ==> (#[trigger] rows[j]).is_correct != 1,
        first_correct(rows) is None ==> forall|j: int| 0 <= j < rows.len() ==> (#[trigger] rows[j]).is_correct != 1,
    decreases rows.len(),
{
    if rows.len() > 0 && rows[0].is_correct != 1 {
        let rest = rows.drop_first();
        lemma_first_correct_is_first(rest);
        assert forall|j: int| 0 < j < rows.len() implies #[trigger] rows[j] == rest[j - 1] by {}
    }
}

/// A typed answer (`exact`, `number`) is judged against the first answer
/// marked right: an `exact` answer is right exactly when it is the same text
/// (ends trimmed, case ignored), a `number` answer exactly when it is the same
/// number; with no answer marked right it is wrong.
pub proof fn lemma_typed_answer_against_first_right(
    kind: Seq<char>,
    typed: String,
    rows: Seq<AnswerRow>,
    numbers_equal: bool,
)
    requires
        kind == "exact"@ || kind == "number"@,
    ensures
        verdict(kind, Given::Text(typed), rows, numbers_equal) <==> exists|i: int|
            0 <= i < rows.len() && (#[trigger] rows[i]).is_correct == 1 && (forall|j: int|
                0 <= j < i ==> (#[trigger] rows[j]).is_correct != 1) && (if kind == "number"@ {
                numbers_equal
            } else {
                text_same(typed@, rows[i].text@)
            }),
{
    reveal_strlit("exact");
    reveal_strlit("number");
    reveal_strlit("single");
    reveal_strlit("multi");
    reveal_strlit("grid_cells");
    reveal_strlit("grid_lines");
    assert(KIND_CELLS@ == "grid_cells"@);
    assert(KIND_LINES@ == "grid_lines"@);
    assert(kind.len() != 10);
    assert(kind[0] == 'e' || kind[0] == 'n');
    assert("single"@[0] == 's' && "multi"@[0] == 'm');
    assert(!grid_kind(kind));
    assert(!choice_kind(kind));
    assert(free_kind(kind));
    lemma_first_correct_is_first(rows);
    let right = |i: int|
        0 <= i < rows.len() && rows[i].is_correct == 1 && (forall|j: int|
            0 <= j < i ==> (#[trigger] rows[j]).is_correct != 1) && (if kind == "number"@ {
            numbers_equal
        } else {
            text_same(typed@, rows[i].text@)
        });
    if let Some(f) = first_correct(rows) {
        assert forall|i: int| #[trigger] right(i) implies i == f by {
            if i < f {
                assert(rows[i].is_correct != 1);
            } else if f < i {
                assert(rows[f].is_correct != 1);
            }
        }
        if verdict(kind, Given::Text(typed), rows, numbers_equal) {
            assert(right(f));
        }
    }
}

/// Grades one question from its stored kind and answers and from what the
/// child gave. `numbers_equal` matters for a `number` question only: whether
/// the typed text and the first right answer are the same number.
pub fn grade_question(
    question_id: i64,
    kind: String,
    statement: String,
    explanation: Option<String>,
    given: &Given,
    rows: &[AnswerRow],
    numbers_equal: bool,
) -> (r: GradedQuestion)
    ensures
        r.question_id == question_id,
        r.kind@ == kind@,
        r.statement@ == statement@,
        r.explanation == explanation,
        r.correct == verdict(kind@, *given, rows@, numbers_equal),
        r.answers@.len() == rows@.len(),
        forall|k: int|
            0 <= k < rows@.len() ==> graded_answer(
                #[trigger] r.answers@[k],
                rows@[k],
                kind@,
                *given,
                r.correct,
            ),
        given_text_of(r.given_text, kind@, *given, rows@),
        grid_kind(kind@) ==> match grid_model(kind@, rows@) {
            Some(m) => (r.grid matches Some(rev) && review_of(rev, m, drawn_view(kind@, m, *given))),
            None => r.grid is None,
        },
        !grid_kind(kind@) ==> r.grid is None,
{
    proof {
        reveal_strlit("single");
        reveal_strlit("multi");
        reveal_strlit("exact");
        reveal_strlit("number");
        assert("single"@[0] != "exact"@[0]);
        assert("single"@[0] != "number"@[0]);
        assert("multi"@ != "exact"@);
        assert("multi"@ != "number"@);
    }
    let mut correct: bool = false;
    let mut given_text: Option<String> = None;
    let mut grid_review: Option<GridReview> = None;
    let first: Option<usize> = first_correct_row(rows);
    if is_grid(kind.as_str()) {
        let empty: Vec<String> = Vec::new();
        let tokens: &[String] = match given {
            Given::Grid(t) => t.as_slice(),
            _ => empty.as_slice(),
        };
        assert(string_views(tokens@) == given_tokens(*given)) by {
            match *given {
                Given::Grid(t) => {},
                _ => {
                    assert(string_views(tokens@) =~= Seq::<Seq<char>>::empty());
                },
            }
        }
        let model: Option<Grid> = match first {
            Some(i) => match Grid::parse_as(kind.as_str(), rows[i].text.as_str()) {
                Ok(g) => Some(g),
                Err(_) => None,
            },
            None => None,
        };
        if let Some(model) = model {
            proof {
                crate::grid::lemma_parsed_size(kind@, rows@[first.unwrap() as int].text@);
            }
            let drawn: Grid = Grid::from_tokens(kind.as_str(), model.w, model.h, tokens);
            correct = drawn.same(&model);
            let (rev, text): (GridReview, Option<String>) = review(&model, &drawn);
            grid_review = Some(rev);
            given_text = text;
        }
    } else {
        let k: Vec<char> = chars_of(kind.as_str());
        if chars_eq_str(&k, "single") || chars_eq_str(&k, "multi") {
            if let Given::Choices(ids) = given {
                correct = same_choice(ids, rows);
            }
        } else if chars_eq_str(&k, "exact") || chars_eq_str(&k, "number") {
            if let Given::Text(typed) = given {
                correct = match first {
                    Some(i) => if chars_eq_str(&k, "number") {
                        numbers_equal
                    } else {
                        text_matches(typed.as_str(), rows[i].text.as_str())
                    },
                    None => false,
                };
                let t: String = trimmed(typed.as_str());
                let tc: Vec<char> = chars_of(t.as_str());
                if tc.len() == 0 {
                    given_text = None;
                } else {
                    let copy: String = typed.clone();
                    assert(copy@ == typed@);
                    given_text = Some(copy);
                }
                assert(tc@ == trim(typed@));
            }
        }
    }
    let single: bool = stores_single_answer(kind.as_str());
    let mut answers: Vec<GradedAnswer> = Vec::new();
    let mut j: usize = 0;
    while j < rows.len()
        invariant
            j <= rows@.len(),
            single == (free_kind(kind@) || grid_kind(kind@)),
            answers@.len() == j,
            forall|k: int|
                0 <= k < j ==> graded_answer(
                    #[trigger] answers@[k],
                    rows@[k],
                    kind@,
                    *given,
                    correct,
                ),
        decreases rows@.len() - j,
    {
        let is_correct: bool = rows[j].is_correct == 1;
        let was_chosen: bool = if single {
            is_correct && correct
        } else {
            match given {
                Given::Choices(ids) => has_id(ids, rows[j].id),
                _ => false,
            }
        };
        answers.push(
            GradedAnswer { answer_id: rows[j].id, text: rows[j].text.clone(), is_correct, was_chosen },
        );
        j = j + 1;
    }
    GradedQuestion {
        question_id,
        kind,
        statement,
        explanation,
        answers,
        given_text,
        grid: grid_review,
        correct,
    }
}

/// `p` is the prompt drawn from the model `m` of a question of kind `kind`.
pub open spec fn prompt_is(kind: Seq<char>, m: GridView, p: GridPrompt) -> bool {
    &&& p.w == m.w
    &&& p.h == m.h
    &&& p.aspect@ == aspect_text(m.w, m.h)
    &&& p.is_cells == (kind == KIND_CELLS@)
    &&& forall|g: Grid|
        g.wf() && g@ == m ==> p.model_svg@ == #[trigger] svg_text(g) && p.blank_svg@
            == svg_blank_text(g)
    &&& kind == KIND_CELLS@ ==> p.toggles@.len() == cell_marks(m.w, m.h).len() && forall|k: int|
        0 <= k < p.toggles@.len() ==> (#[trigger] p.toggles@[k])@ == cell_toggle(
            cell_marks(m.w, m.h)[k],
        )
    &&& kind != KIND_CELLS@ ==> p.toggles@.len() == edge_marks(m.w, m.h).len() && forall|k: int|
        0 <= k < p.toggles@.len() ==> (#[trigger] p.toggles@[k])@ == edge_toggle(
            edge_marks(m.w, m.h)[k],
        )
}

/// `r` is the prompt of a grid question whose stored figure is `payload`:
/// nothing when the payload is no figure of the kind.
pub open spec fn prompt_of(kind: Seq<char>, payload: Seq<char>, r: Option<GridPrompt>) -> bool {
    match spec_parse_as(kind, payload) {
        Err(_) => r is None,
        Ok(m) => r matches Some(p) && prompt_is(kind, m, p),
    }
}

/// The prompt of a grid question: the model read from its payload, drawn,
/// and the zones of the blank grid. `None` when the payload cannot be read as
/// a figure of the kind: the question is then left out of the quiz.
pub fn grid_prompt(kind: &str, payload: &str) -> (r: Option<GridPrompt>)
    ensures
        prompt_of(kind@, payload@, r),
{
    let model: Grid = match Grid::parse_as(kind, payload) {
        Ok(g) => g,
        Err(_) => {
            return None;
        },
    };
    proof {
        crate::grid::lemma_parsed_size(kind@, payload@);
    }
    let p = GridPrompt {
        w: model.w,
        h: model.h,
        aspect: frame_aspect(model.w, model.h),
        model_svg: model.svg(),
        blank_svg: model.svg_blank(),
        toggles: toggles(kind, model.w, model.h),
        is_cells: chars_eq_str(&chars_of(kind), KIND_CELLS),
    };
    proof {
        assert forall|g: Grid| g.wf() && g@ == model@ implies p.model_svg@ == #[trigger] svg_text(
            g,
        ) && p.blank_svg@ == svg_blank_text(g) by {
            crate::grid::lemma_same_writing(g, model);
        }
    }
    Some(p)
}

/// A question as it is put to the child, from what is stored of it. Three
/// regimes, and what must stay secret does not leave the server: the choice
/// kinds send their options (in the order given); the typed kinds send none;
/// the grid kinds send the model to copy and no option. A grid question whose
/// figure is missing or unreadable is left out (`None`): a card with nothing to
/// fill would keep the child from ever finishing the quiz.
pub fn prepare_question(
    id: i64,
    kind: String,
    statement: String,
    options: Vec<QuizAnswer>,
    payload: Option<&str>,
) -> (r: Option<QuizQuestion>)
    ensures
        !grid_kind(kind@) ==> (r matches Some(q) && q.id == id && q.kind@ == kind@
            && q.statement@ == statement@ && q.grid is None && (free_kind(kind@) ==> q.answers@.len()
            == 0) && (!free_kind(kind@) ==> q.answers@ == options@)),
        grid_kind(kind@) && payload is None ==> r is None,
        grid_kind(kind@) && payload is Some ==> match r {
            None => prompt_of(kind@, payload.unwrap()@, None),
            Some(q) => q.id == id && q.kind@ == kind@ && q.statement@ == statement@
                && q.answers@.len() == 0 && q.grid is Some && prompt_of(
                kind@,
                payload.unwrap()@,
                q.grid,
            ),
        },
{
    if is_grid(kind.as_str()) {
        let p: &str = match payload {
            Some(p) => p,
            None => {
                return None;
            },
        };
        let prompt: Option<GridPrompt> = grid_prompt(kind.as_str(), p);
        match prompt {
            Some(g) => Some(
                QuizQuestion { id, kind, statement, answers: Vec::new(), grid: Some(g) },
            ),
            None => None,
        }
    } else if answer_is_secret(kind.as_str()) {
        Some(QuizQuestion { id, kind, statement, answers: Vec::new(), grid: None })
    } else {
        Some(QuizQuestion { id, kind, statement, answers: options, grid: None })
    }
}

/// How many of the graded questions are right.
pub open spec fn right_count(graded: Seq<GradedQuestion>) -> nat
    decreases graded.len(),
{
    if graded.len() == 0 {
        0
    } else {
        right_count(graded.drop_last()) + if graded.last().correct {
            1nat
        } else {
            0nat
        }
    }
}

proof fn lemma_right_count_bound(graded: Seq<GradedQuestion>)
    ensures
        right_count(graded) <= graded.len(),
    decreases graded.len(),
{
    if graded.len() > 0 {
        lemma_right_count_bound(graded.drop_last());
    }
}

/// The number of right answers of a graded quiz.
pub fn correct_count(graded: &[GradedQuestion]) -> (r: usize)
    ensures
        r == right_count(graded@),
        r <= graded@.len(),
{
    let mut n: usize = 0;
    let mut i: usize = 0;
    while i < graded.len()
        invariant
            i <= graded@.len(),
            n == right_count(graded@.subrange(0, i as int)),
        decreases graded@.len() - i,
    {
        assert(graded@.subrange(0, i + 1).drop_last() == graded@.subrange(0, i as int));
        proof {
            lemma_right_count_bound(graded@.subrange(0, i as int));
        }
        if graded[i].correct {
            n = n + 1;
        }
        i = i + 1;
    }
    assert(graded@.subrange(0, graded@.len() as int) == graded@);
    proof {
        lemma_right_count_bound(graded@);
    }
    n
}

/// Nothing drawn is never right: for a grid question whose model has at
/// least one mark (as every model that the forms and the import store), an
/// answer without a single mark — a blank drawing, or a question skipped —
/// is graded wrong.
pub proof fn lemma_blank_drawing_is_wrong(
    kind: Seq<char>,
    given: Given,
    rows: Seq<AnswerRow>,
    numbers_equal: bool,
)
    requires
        grid_kind(kind),
        grid_model(kind, rows) matches Some(m) && marks_of(m.figure) > 0,
        given_tokens(given).len() == 0,
    ensures
        !verdict(kind, given, rows, numbers_equal),
{
    let m = grid_model(kind, rows)->Some_0;
    let d = drawn_view(kind, m, given);
    assert(given_tokens(given) == Seq::<Seq<char>>::empty());
    if d == m {
        match m.figure {
            FigureView::Cells(s) => {
                assert(s == Set::<(i64, i64)>::empty());
            },
            FigureView::Edges(s) => {
                assert(s == Set::<crate::grid::Edge>::empty());
            },
        }
    }
}

// ===== The order of a quiz ==========================================================

/// `SliceRandom::shuffle` with the thread's random generator. Claimed: the
/// result holds the same ids, each as many times (a permutation, which is
/// what `shuffle` does in place); nothing is claimed of the order, which is
/// random.
#[verifier::external_body]
fn shuffle_ids(ids: Vec<i64>) -> (r: Vec<i64>)
    ensures
        r@.to_multiset() == ids@.to_multiset(),
{
    let mut v = ids;
    v.shuffle(&mut rand::thread_rng());
    v
}

/// The ids picked for each subject, one subject after the other.
pub open spec fn picked_ids(picks: Seq<Vec<i64>>) -> Seq<i64>
    decreases picks.len(),
{
    if picks.len() == 0 {
        Seq::empty()
    } else {
        picked_ids(picks.drop_last()) + picks.last()@
    }
}

/// The questions of a quiz in the order they are put to the child: all the
/// ids picked for the subjects, each once per pick, in a random order.
pub fn quiz_order(picks: &[Vec<i64>]) -> (r: Vec<i64>)
    ensures
        r@.to_multiset() == picked_ids(picks@).to_multiset(),
{
    let mut all: Vec<i64> = Vec::new();
    let mut i: usize = 0;
    while i < picks.len()
        invariant
            i <= picks@.len(),
            all@ == picked_ids(picks@.subrange(0, i as int)),
        decreases picks@.len() - i,
    {
        assert(picks@.subrange(0, i + 1).drop_last() == picks@.subrange(0, i as int));
        let ghost before = all@;
        let mut j: usize = 0;
        while j < picks[i].len()
            invariant
                i < picks@.len(),
                j <= picks@[i as int]@.len(),
                all@ == before + picks@[i as int]@.subrange(0, j as int),
            decreases picks@[i as int]@.len() - j,
        {
            all.push(picks[i][j]);
            j = j + 1;
            assert(all@ =~= before + picks@[i as int]@.subrange(0, j as int));
        }
        assert(picks@[i as int]@.subrange(0, j as int) == picks@[i as int]@);
        i = i + 1;
    }
    assert(picks@.subrange(0, picks@.len() as int) == picks@);
    shuffle_ids(all)
}

} // verus!
