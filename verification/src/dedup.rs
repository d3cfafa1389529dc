//! Finding the duplicated questions.
//!
//! Two questions are the same when their statements reduce to the same key:
//! case and spacing do not make a different question for the child who reads
//! it. For the grid kinds the statement is an interchangeable instruction and
//! the real question is the figure, so the figure is part of the key.
//! In each group the MOST RECENT question (highest id) is kept.

use vstd::prelude::*;

use crate::grid::join;
use crate::quiz::{grid_kind, is_grid};
use crate::text::{
    ascii_lowered, ascii_text, chars_of, is_space, is_whitespace, lower_text, push_chars, push_str,
    str_to_lowercase, string_of,
};

verus! {

/// The runs of non-white-space characters of `s`, in order
/// (`str::split_whitespace`).
pub open spec fn words(s: Seq<char>) -> Seq<Seq<char>>
    decreases s.len(),
{
    if s.len() == 0 {
        Seq::empty()
    } else {
        let w = words(s.drop_last());
        let c = s.last();
        if is_space(c) {
            w
        } else if s.len() >= 2 && !is_space(s[s.len() - 2]) {
            w.update(w.len() - 1, w.last().push(c))
        } else {
            w.push(seq![c])
        }
    }
}

/// The grouping key of a statement: its words joined by one space, then
/// lowercased.
pub open spec fn dedup_key_text(statement: Seq<char>) -> Seq<char> {
    lower_text(join(words(statement), ' '))
}

/// The full key: for a grid question with its figure, the kind, the key of the
/// statement and the figure; for any other question, the key of the statement.
pub open spec fn full_key_text(kind: Seq<char>, statement: Seq<char>, figure: Option<Seq<char>>) -> Seq<
    char,
> {
    match figure {
        Some(f) => if grid_kind(kind) {
            kind + seq!['\u{1}'] + dedup_key_text(statement) + seq!['\u{1}'] + f
        } else {
            dedup_key_text(statement)
        },
        None => dedup_key_text(statement),
    }
}

pub open spec fn opt_text(o: Option<&str>) -> Option<Seq<char>> {
    match o {
        Some(f) => Some(f@),
        None => None,
    }
}

proof fn lemma_join_grow(w: Seq<Seq<char>>, c: char, sep: char)
    requires
        w.len() >= 1,
    ensures
        join(w.update(w.len() - 1, w.last().push(c)), sep) == join(w, sep).push(c),
{
    let u = w.update(w.len() - 1, w.last().push(c));
    if w.len() == 1 {
        assert(u[0] == w[0].push(c));
    } else {
        assert(u.drop_last() =~= w.drop_last());
        assert(u.last() == w.last().push(c));
        assert(join(u, sep) =~= join(w, sep).push(c));
    }
}

proof fn lemma_join_push(w: Seq<Seq<char>>, x: Seq<char>, sep: char)
    ensures
        w.len() == 0 ==> join(w.push(x), sep) == x,
        w.len() > 0 ==> join(w.push(x), sep) == join(w, sep) + seq![sep] + x,
{
    assert(w.push(x).drop_last() =~= w);
    if w.len() == 0 {
        assert(w.push(x)[0] == x);
    }
}

proof fn lemma_words_nonempty(s: Seq<char>)
    requires
        s.len() > 0,
        !is_space(s.last()),
    ensures
        words(s).len() > 0,
    decreases s.len(),
{
    if s.len() >= 2 && !is_space(s[s.len() - 2]) {
        lemma_words_nonempty(s.drop_last());
    }
}

proof fn lemma_words_keep_ascii(s: Seq<char>)
    requires
        ascii_text(s),
    ensures
        ascii_text(join(words(s), ' ')),
    decreases s.len(),
{
    if s.len() > 0 {
        let p = s.drop_last();
        let c = s.last();
        assert forall|i: int| 0 <= i < p.len() implies (#[trigger] p[i] as u32) < 128 by {
            assert(p[i] == s[i]);
        }
        assert((c as u32) < 128) by {
            assert(s[s.len() - 1] == c);
        }
        lemma_words_keep_ascii(p);
        let w = words(p);
        let jw = join(w, ' ');
        if is_space(c) {
        } else if s.len() >= 2 && !is_space(s[s.len() - 2]) {
            assert(p.last() == s[s.len() - 2]);
            lemma_words_nonempty(p);
            lemma_join_grow(w, c, ' ');
            let r = jw.push(c);
            assert forall|i: int| 0 <= i < r.len() implies (#[trigger] r[i] as u32) < 128 by {
                if i < jw.len() {
                    assert(r[i] == jw[i]);
                }
            }
        } else {
            lemma_join_push(w, seq![c], ' ');
            let r = jw + seq![' '] + seq![c];
            assert forall|i: int| 0 <= i < r.len() implies (#[trigger] r[i] as u32) < 128 by {
                if i < jw.len() {
                    assert(r[i] == jw[i]);
                }
            }
        }
    }
}

/// For an ASCII statement the grouping key is its words joined by one space,
/// with `A`–`Z` folded to `a`–`z`.
pub proof fn lemma_ascii_key_folds_case(statement: Seq<char>)
    requires
        ascii_text(statement),
    ensures
        dedup_key_text(statement) == ascii_lowered(join(words(statement), ' ')),
{
    lemma_words_keep_ascii(statement);
}

/// The words of `statement` joined by single spaces.
fn squeezed(statement: &str) -> (r: Vec<char>)
    ensures
        r@ == join(words(statement@), ' '),
{
    let s: Vec<char> = chars_of(statement);
    let mut out: Vec<char> = Vec::new();
    let mut in_word: bool = false;
    let mut i: usize = 0;
    while i < s.len()
        invariant
            i <= s@.len(),
            s@ == statement@,
            out@ == join(words(s@.subrange(0, i as int)), ' '),
            in_word == (i > 0 && !is_space(s@[i - 1])),
            in_word ==> words(s@.subrange(0, i as int)).len() > 0,
            (out@.len() == 0) == (words(s@.subrange(0, i as int)).len() == 0),
        decreases s@.len() - i,
    {
        let c: char = s[i];
        let ghost pre = s@.subrange(0, i as int);
        let ghost next = s@.subrange(0, i + 1);
        assert(next.drop_last() == pre);
        assert(next.last() == c);
        if is_whitespace(c) {
            in_word = false;
        } else {
            let ghost w = words(pre);
            if in_word {
                assert(next[next.len() - 2] == s@[i - 1]);
                out.push(c);
                proof {
                    lemma_join_grow(w, c, ' ');
                }
            } else {
                if i > 0 {
                    assert(next[next.len() - 2] == s@[i - 1]);
                }
                if out.len() > 0 {
                    out.push(' ');
                }
                out.push(c);
                proof {
                    lemma_join_push(w, seq![c], ' ');
                    assert(out@ =~= join(words(next), ' '));
                }
            }
            in_word = true;
        }
        i = i + 1;
    }
    assert(s@.subrange(0, s@.len() as int) == s@);
    out
}

/// The grouping key of a statement: words joined by one space, lowercased
/// (Unicode: « Été » and « été » meet).
pub fn dedup_key(statement: &str) -> (r: String)
    ensures
        r@ == dedup_key_text(statement@),
{
    let v: Vec<char> = squeezed(statement);
    let s: String = string_of(&v);
    str_to_lowercase(s.as_str())
}

/// The key that questions are grouped by (see `full_key_text`).
pub fn full_key(kind: &str, statement: &str, figure: Option<&str>) -> (r: String)
    ensures
        r@ == full_key_text(kind@, statement@, opt_text(figure)),
{
    match figure {
        Some(f) => if is_grid(kind) {
            let key: String = dedup_key(statement);
            let mut out: Vec<char> = chars_of(kind);
            out.push('\u{1}');
            let kc: Vec<char> = chars_of(key.as_str());
            push_chars(&mut out, &kc);
            out.push('\u{1}');
            push_str(&mut out, f);
            string_of(&out)
        } else {
            dedup_key(statement)
        },
        None => dedup_key(statement),
    }
}

// ===== The groups of duplicates ===============================================

/// One question as the duplicate search reads it: with its subject's name and,
/// for the kinds with a single stored answer, that answer (the figure of a
/// grid question).
#[derive(Debug, Clone)]
pub struct DupRow {
    pub id: i64,
    pub statement: String,
    pub subject_name: String,
    pub kind: String,
    pub figure: Option<String>,
}

/// What falls in a group: the question, its subject, and the number of quizzes
/// it appeared in (its history moves to the kept question).
#[derive(Debug, Clone)]
pub struct Victim {
    pub id: i64,
    pub subject_name: String,
    pub history_count: i64,
}

/// A group of duplicates: the question kept, and those that go.
#[derive(Debug, Clone)]
pub struct DuplicateGroup {
    pub statement: String,
    pub keep_id: i64,
    pub victims: Vec<Victim>,
}

#[derive(Debug, Clone, Default)]
pub struct PurgeReport {
    pub groups: usize,
    pub deleted: usize,
    /// History rows moved to the kept question.
    pub repointed: u64,
    /// History rows dropped: the quiz already held the kept question.
    pub merged: u64,
}

pub open spec fn row_key(r: DupRow) -> Seq<char> {
    full_key_text(
        r.kind@,
        r.statement@,
        match r.figure {
            Some(f) => Some(f@),
            None => None,
        },
    )
}

pub open spec fn distinct_ids(rows: Seq<DupRow>) -> bool {
    forall|i: int, j: int| 0 <= i < rows.len() && 0 <= j < rows.len() && i != j ==> rows[i].id != rows[j].id
}

/// Row `i` is the first of its key.
pub open spec fn first_of_key(rows: Seq<DupRow>, i: int) -> bool {
    0 <= i < rows.len() && forall|j: int| 0 <= j < i ==> row_key(#[trigger] rows[j]) != row_key(rows[i])
}

pub open spec fn group_holds(g: DuplicateGroup, id: i64) -> bool {
    g.keep_id == id || exists|p: int| 0 <= p < g.victims@.len() && (#[trigger] g.victims@[p]).id == id
}

/// `g` is the group of the key of row `i`: every question of that key is in
/// it, once; the kept one is the most recent (highest id) and gives the
/// statement shown; the others follow in increasing id, with their subject.
pub open spec fn group_of(g: DuplicateGroup, rows: Seq<DupRow>, i: int) -> bool {
    let k = row_key(rows[i]);
    &&& g.victims@.len() >= 1
    &&& forall|p: int| 0 <= p < g.victims@.len() ==> exists|j: int|
        0 <= j < rows.len() && row_key(rows[j]) == k && rows[j].id == (#[trigger] g.victims@[p]).id
            && rows[j].subject_name@ == g.victims@[p].subject_name@
    &&& forall|p: int| 0 <= p < g.victims@.len() ==> (#[trigger] g.victims@[p]).history_count == 0
    &&& forall|p: int, q: int| 0 <= p < q < g.victims@.len() ==> (#[trigger] g.victims@[p]).id < (
    #[trigger] g.victims@[q]).id
    &&& forall|p: int| 0 <= p < g.victims@.len() ==> (#[trigger] g.victims@[p]).id < g.keep_id
    &&& exists|j: int|
        0 <= j < rows.len() && row_key(rows[j]) == k && rows[j].id == g.keep_id
            && rows[j].statement@ == g.statement@
    &&& forall|j: int| 0 <= j < rows.len() && row_key(rows[j]) == k ==> group_holds(g, #[trigger] rows[j].id)
}

/// Lexicographic order on texts, character by character (the order of
/// `str` comparison).
pub open spec fn text_le(a: Seq<char>, b: Seq<char>) -> bool
    decreases a.len(),
{
    if a.len() == 0 {
        true
    } else if b.len() == 0 {
        false
    } else if a[0] != b[0] {
        a[0] < b[0]
    } else {
        text_le(a.drop_first(), b.drop_first())
    }
}

proof fn lemma_text_le_total(a: Seq<char>, b: Seq<char>)
    ensures
        text_le(a, b) || text_le(b, a),
    decreases a.len(),
{
    if a.len() > 0 && b.len() > 0 && a[0] == b[0] {
        lemma_text_le_total(a.drop_first(), b.drop_first());
    }
}

/// Groups come from the largest to the smallest, then by statement.
pub open spec fn group_le(a: DuplicateGroup, b: DuplicateGroup) -> bool {
    a.victims@.len() > b.victims@.len() || (a.victims@.len() == b.victims@.len() && text_le(
        a.statement@,
        b.statement@,
    ))
}

pub open spec fn groups_sorted(g: Seq<DuplicateGroup>) -> bool {
    forall|p: int| 0 <= p < g.len() - 1 ==> group_le(#[trigger] g[p], g[p + 1])
}

fn text_le_exec(a: &str, b: &str) -> (r: bool)
    ensures
        r == text_le(a@, b@),
{
    let x: Vec<char> = chars_of(a);
    let y: Vec<char> = chars_of(b);
    let mut i: usize = 0;
    assert(x@.skip(0) == x@);
    assert(y@.skip(0) == y@);
    while i < x.len()
        invariant
            i <= x@.len(),
            i <= y@.len(),
            text_le(a@, b@) == text_le(x@.skip(i as int), y@.skip(i as int)),
            x@ == a@,
            y@ == b@,
        decreases x@.len() - i,
    {
        if i >= y.len() {
            return false;
        }
        if x[i] != y[i] {
            return x[i] < y[i];
        }
        assert(x@.skip(i as int).drop_first() == x@.skip(i + 1));
        assert(y@.skip(i as int).drop_first() == y@.skip(i + 1));
        i = i + 1;
    }
    true
}

fn group_lt(a: &DuplicateGroup, b: &DuplicateGroup) -> (r: bool)
    ensures
        r == !group_le(*b, *a),
{
    if a.victims.len() != b.victims.len() {
        a.victims.len() > b.victims.len()
    } else {
        !text_le_exec(b.statement.as_str(), a.statement.as_str())
    }
}

/// The questions of the key of row `i` from `i` on, in increasing id.
fn members_of(rows: &[DupRow], keys: &Vec<String>, i: usize) -> (r: Vec<usize>)
    requires
        keys@.len() == rows@.len(),
        forall|j: int| 0 <= j < rows@.len() ==> (#[trigger] keys@[j])@ == row_key(rows@[j]),
        i < rows@.len(),
        distinct_ids(rows@),
    ensures
        forall|p: int| 0 <= p < r@.len() ==> i <= #[trigger] r@[p] < rows@.len() && row_key(
            rows@[r@[p] as int],
        ) == row_key(rows@[i as int]),
        forall|j: int|
            i <= j < rows@.len() && row_key(rows@[j]) == row_key(rows@[i as int]) ==> exists|p: int|
                0 <= p < r@.len() && #[trigger] r@[p] as int == j,
        forall|p: int, q: int| 0 <= p < q < r@.len() ==> rows@[r@[p] as int].id < rows@[r@[q] as int].id,
{
    let mut out: Vec<usize> = Vec::new();
    let mut j: usize = i;
    while j < rows.len()
        invariant
            keys@.len() == rows@.len(),
            forall|j: int| 0 <= j < rows@.len() ==> (#[trigger] keys@[j])@ == row_key(rows@[j]),
            i <= j <= rows@.len(),
            distinct_ids(rows@),
            forall|p: int| 0 <= p < out@.len() ==> i <= #[trigger] out@[p] < j && row_key(
                rows@[out@[p] as int],
            ) == row_key(rows@[i as int]),
            forall|m: int|
                i <= m < j && row_key(rows@[m]) == row_key(rows@[i as int]) ==> exists|p: int|
                    0 <= p < out@.len() && #[trigger] out@[p] as int == m,
            forall|p: int, q: int|
                0 <= p < q < out@.len() ==> rows@[out@[p] as int].id < rows@[out@[q] as int].id,
        decreases rows@.len() - j,
    {
        if keys[j] == keys[i] {
            let id: i64 = rows[j].id;
            let mut p: usize = 0;
            while p < out.len() && rows[out[p]].id < id
                invariant
                    p <= out@.len(),
                    forall|m: int| 0 <= m < out@.len() ==> #[trigger] out@[m] < rows@.len(),
                    forall|m: int| 0 <= m < p ==> rows@[#[trigger] out@[m] as int].id < id,
                decreases out@.len() - p,
            {
                p = p + 1;
            }
            proof {
                if p < out@.len() {
                    assert(out@[p as int] != j) by {
                        assert(out@[p as int] < j);
                    }
                }
            }
            let ghost before = out@;
            out.insert(p, j);
            assert forall|m: int|
                i <= m < j + 1 && row_key(rows@[m]) == row_key(rows@[i as int]) implies exists|x: int|
                0 <= x < out@.len() && #[trigger] out@[x] as int == m by {
                if m < j {
                    let q = choose|q: int| 0 <= q < before.len() && #[trigger] before[q] as int == m;
                    if q < p {
                        assert(out@[q] == before[q]);
                    } else {
                        assert(out@[q + 1] == before[q]);
                    }
                } else {
                    assert(out@[p as int] == j);
                }
            }
            assert forall|a: int, b: int| 0 <= a < b < out@.len() implies rows@[out@[a] as int].id
                < rows@[out@[b] as int].id by {
                if p < before.len() && out@[p as int] == j {
                    assert(rows@[before[p as int] as int].id != id) by {
                        assert(before[p as int] < j);
                    }
                }
            }
        } else {
            assert forall|m: int|
                i <= m < j + 1 && row_key(rows@[m]) == row_key(rows@[i as int]) implies exists|x: int|
                0 <= x < out@.len() && #[trigger] out@[x] as int == m by {
                if m == j {
                    assert(keys@[j as int]@ != keys@[i as int]@);
                }
            }
        }
        j = j + 1;
    }
    out
}

/// The group of the key of row `i`, the first row of its key; `None` when no
/// other question has that key.
fn build_group(rows: &[DupRow], keys: &Vec<String>, i: usize) -> (r: Option<DuplicateGroup>)
    requires
        keys@.len() == rows@.len(),
        forall|j: int| 0 <= j < rows@.len() ==> (#[trigger] keys@[j])@ == row_key(rows@[j]),
        first_of_key(rows@, i as int),
        distinct_ids(rows@),
    ensures
        r matches Some(g) ==> group_of(g, rows@, i as int),
        r is None ==> forall|j: int|
            0 <= j < rows@.len() && j != i ==> row_key(#[trigger] rows@[j]) != row_key(rows@[i as int]),
{
    let m: Vec<usize> = members_of(rows, keys, i);
    let ghost k = row_key(rows@[i as int]);
    assert(exists|x: int| 0 <= x < m@.len() && #[trigger] m@[x] as int == i);
    if m.len() < 2 {
        assert forall|j: int| 0 <= j < rows@.len() && j != i implies row_key(#[trigger] rows@[j])
            != k by {
            if row_key(rows@[j]) == k {
                if j < i {
                    assert(row_key(rows@[j]) != row_key(rows@[i as int]));
                } else {
                    let a = choose|a: int| 0 <= a < m@.len() && #[trigger] m@[a] as int == j;
                    let b = choose|b: int| 0 <= b < m@.len() && #[trigger] m@[b] as int == i;
                    assert(a == 0 && b == 0);
                    assert(false);
                }
            }
        }
        return None;
    }
    let last: usize = m.len() - 1;
    let keep: usize = m[last];
    let mut victims: Vec<Victim> = Vec::new();
    let mut p: usize = 0;
    while p < last
        invariant
            last == m@.len() - 1,
            p <= last,
            forall|a: int| 0 <= a < m@.len() ==> #[trigger] m@[a] < rows@.len(),
            victims@.len() == p,
            forall|a: int|
                0 <= a < p ==> (#[trigger] victims@[a]).id == rows@[m@[a] as int].id
                    && victims@[a].subject_name@ == rows@[m@[a] as int].subject_name@
                    && victims@[a].history_count == 0,
        decreases last - p,
    {
        let row: &DupRow = &rows[m[p]];
        victims.push(Victim { id: row.id, subject_name: row.subject_name.clone(), history_count: 0 });
        p = p + 1;
    }
    let g = DuplicateGroup {
        statement: rows[keep].statement.clone(),
        keep_id: rows[keep].id,
        victims,
    };
    assert forall|a: int| 0 <= a < g.victims@.len() implies exists|j: int|
        0 <= j < rows@.len() && row_key(rows@[j]) == k && rows@[j].id == (#[trigger] g.victims@[a]).id
            && rows@[j].subject_name@ == g.victims@[a].subject_name@ by {
        let j = m@[a] as int;
        assert(row_key(rows@[j]) == k);
    }
    assert(row_key(rows@[keep as int]) == k);
    assert forall|j: int| 0 <= j < rows@.len() && row_key(rows@[j]) == k implies group_holds(
        g,
        #[trigger] rows@[j].id,
    ) by {
        if j < i {
            assert(row_key(rows@[j]) != row_key(rows@[i as int]));
        } else {
            let a = choose|a: int| 0 <= a < m@.len() && #[trigger] m@[a] as int == j;
            if a < last {
                assert(g.victims@[a].id == rows@[j].id);
            }
        }
    }
    Some(g)
}

proof fn lemma_first_exists(rows: Seq<DupRow>, i: int)
    requires
        0 <= i < rows.len(),
    ensures
        exists|f: int| 0 <= f <= i && first_of_key(rows, f) && row_key(rows[f]) == row_key(rows[i]),
    decreases i,
{
    if first_of_key(rows, i) {
        assert(first_of_key(rows, i) && row_key(rows[i]) == row_key(rows[i]));
    } else {
        let j = choose|j: int| 0 <= j < i && row_key(#[trigger] rows[j]) == row_key(rows[i]);
        lemma_first_exists(rows, j);
    }
}

proof fn lemma_group_le_total(a: DuplicateGroup, b: DuplicateGroup)
    ensures
        group_le(a, b) || group_le(b, a),
{
    lemma_text_le_total(a.statement@, b.statement@);
}

/// Adds `g` to the sorted groups, in its place.
fn add_group(out: &mut Vec<DuplicateGroup>, g: DuplicateGroup)
    requires
        groups_sorted(old(out)@),
        forall|p: int, q: int|
            0 <= p < q < old(out)@.len() ==> (#[trigger] old(out)@[p]).keep_id != (
            #[trigger] old(out)@[q]).keep_id,
        forall|p: int| 0 <= p < old(out)@.len() ==> (#[trigger] old(out)@[p]).keep_id != g.keep_id,
    ensures
        groups_sorted(final(out)@),
        forall|p: int, q: int|
            0 <= p < q < final(out)@.len() ==> (#[trigger] final(out)@[p]).keep_id != (
            #[trigger] final(out)@[q]).keep_id,
        final(out)@.len() == old(out)@.len() + 1,
        forall|p: int|
            0 <= p < final(out)@.len() ==> final(out)@[p] == g || exists|q: int|
                0 <= q < old(out)@.len() && #[trigger] final(out)@[p] == old(out)@[q],
        forall|q: int|
            0 <= q < old(out)@.len() ==> exists|p: int|
                0 <= p < final(out)@.len() && final(out)@[p] == #[trigger] old(out)@[q],
        exists|p: int| 0 <= p < final(out)@.len() && final(out)@[p] == g,
{
    let mut pos: usize = 0;
    while pos < out.len() && !group_lt(&g, &out[pos])
        invariant
            pos <= out@.len(),
            forall|q: int| 0 <= q < pos ==> group_le(#[trigger] out@[q], g),
        decreases out@.len() - pos,
    {
        pos = pos + 1;
    }
    let ghost before = out@;
    proof {
        if pos < before.len() {
            lemma_group_le_total(g, before[pos as int]);
        }
    }
    out.insert(pos, g);
    proof {
        lemma_insert_group(before, pos as int, g);
    }
}

#[verifier::spinoff_prover]
#[verifier::rlimit(40)]
proof fn lemma_insert_group(before: Seq<DuplicateGroup>, pos: int, g: DuplicateGroup)
    requires
        0 <= pos <= before.len(),
        groups_sorted(before),
        forall|q: int| 0 <= q < pos ==> group_le(#[trigger] before[q], g),
        pos < before.len() ==> group_le(g, before[pos]),
        forall|p: int, q: int|
            0 <= p < q < before.len() ==> (#[trigger] before[p]).keep_id != (#[trigger] before[q]).keep_id,
        forall|p: int| 0 <= p < before.len() ==> (#[trigger] before[p]).keep_id != g.keep_id,
    ensures
        ({
            let out = before.insert(pos, g);
            &&& groups_sorted(out)
            &&& forall|p: int, q: int|
                0 <= p < q < out.len() ==> (#[trigger] out[p]).keep_id != (#[trigger] out[q]).keep_id
            &&& out.len() == before.len() + 1
            &&& forall|p: int|
                0 <= p < out.len() ==> out[p] == g || exists|q: int|
                    0 <= q < before.len() && #[trigger] out[p] == before[q]
            &&& forall|q: int|
                0 <= q < before.len() ==> exists|p: int| 0 <= p < out.len() && out[p] == #[trigger] before[q]
            &&& exists|p: int| 0 <= p < out.len() && out[p] == g
        }),
{
    let out = before.insert(pos, g);
    assert(out[pos] == g);
    assert forall|p: int| 0 <= p < out.len() - 1 implies group_le(#[trigger] out[p], out[p + 1]) by {
        if p + 1 < pos {
            assert(out[p] == before[p] && out[p + 1] == before[p + 1]);
        } else if p + 1 == pos {
            assert(out[p] == before[p]);
        } else if p == pos {
            assert(out[p + 1] == before[p]);
        } else {
            assert(out[p] == before[p - 1] && out[p + 1] == before[p]);
        }
    }
    assert forall|a: int, b: int| 0 <= a < b < out.len() implies (#[trigger] out[a]).keep_id != (
    #[trigger] out[b]).keep_id by {
        if a < pos && b < pos {
            assert(out[a] == before[a] && out[b] == before[b]);
        } else if a < pos && b == pos {
            assert(out[a] == before[a]);
        } else if a < pos {
            assert(out[a] == before[a] && out[b] == before[b - 1]);
        } else if a == pos {
            assert(out[b] == before[b - 1]);
        } else {
            assert(out[a] == before[a - 1] && out[b] == before[b - 1]);
        }
    }
    assert forall|p: int| 0 <= p < out.len() implies out[p] == g || exists|q: int|
        0 <= q < before.len() && #[trigger] out[p] == before[q] by {
        if p < pos {
            assert(out[p] == before[p]);
        } else if p > pos {
            assert(out[p] == before[p - 1]);
        }
    }
    assert forall|q: int| 0 <= q < before.len() implies exists|p: int|
        0 <= p < out.len() && out[p] == #[trigger] before[q] by {
        if q < pos {
            assert(out[q] == before[q]);
        } else {
            assert(out[q + 1] == before[q]);
        }
    }
}

/// `g` is the group of the key of a row before `i` that is the first of its key.
pub open spec fn has_origin(rows: Seq<DupRow>, g: DuplicateGroup, i: int) -> bool {
    exists|f: int| 0 <= f < i && first_of_key(rows, f) && group_of(g, rows, f)
}

/// What the groups made from the first `i` rows are.
pub open spec fn groups_so_far(rows: Seq<DupRow>, out: Seq<DuplicateGroup>, i: int) -> bool {
    &&& forall|p: int| 0 <= p < out.len() ==> has_origin(rows, #[trigger] out[p], i)
    &&& forall|p: int, q: int|
        0 <= p < q < out.len() ==> (#[trigger] out[p]).keep_id != (#[trigger] out[q]).keep_id
    &&& forall|f: int|
        0 <= f < i && first_of_key(rows, f) && (exists|j: int|
            0 <= j < rows.len() && j != f && row_key(#[trigger] rows[j]) == row_key(rows[f]))
            ==> exists|p: int| 0 <= p < out.len() && group_of(#[trigger] out[p], rows, f)
    &&& groups_sorted(out)
}

/// Takes row `i` into the groups: a new group when it is the first of its key
/// and others share it.
fn next_group(rows: &[DupRow], keys: &Vec<String>, i: usize, out: &mut Vec<DuplicateGroup>)
    requires
        i < rows@.len(),
        keys@.len() == rows@.len(),
        forall|j: int| 0 <= j < rows@.len() ==> (#[trigger] keys@[j])@ == row_key(rows@[j]),
        distinct_ids(rows@),
        groups_so_far(rows@, old(out)@, i as int),
    ensures
        groups_so_far(rows@, final(out)@, i + 1),
{
    let mut seen: bool = false;
    let mut j: usize = 0;
    while j < i
        invariant
            i < rows@.len(),
            j <= i,
            keys@.len() == rows@.len(),
            forall|m: int| 0 <= m < rows@.len() ==> (#[trigger] keys@[m])@ == row_key(rows@[m]),
            !seen ==> forall|m: int| 0 <= m < j ==> row_key(#[trigger] rows@[m]) != row_key(rows@[i as int]),
            seen ==> exists|m: int| 0 <= m < i && row_key(#[trigger] rows@[m]) == row_key(rows@[i as int]),
        decreases i - j,
    {
        if keys[j] == keys[i] {
            seen = true;
            assert(row_key(rows@[j as int]) == row_key(rows@[i as int]));
        }
        j = j + 1;
    }
    if !seen {
        assert(first_of_key(rows@, i as int));
        match build_group(rows, keys, i) {
            Some(g) => {
                proof {
                    assert forall|p: int| 0 <= p < out@.len() implies (#[trigger] out@[p]).keep_id
                        != g.keep_id by {
                        let f = choose|f: int|
                            0 <= f < i && first_of_key(rows@, f) && group_of(out@[p], rows@, f);
                        let jf = choose|jf: int|
                            0 <= jf < rows@.len() && row_key(rows@[jf]) == row_key(rows@[f])
                                && rows@[jf].id == out@[p].keep_id && rows@[jf].statement@
                                == out@[p].statement@;
                        let jg = choose|jg: int|
                            0 <= jg < rows@.len() && row_key(rows@[jg]) == row_key(rows@[i as int])
                                && rows@[jg].id == g.keep_id && rows@[jg].statement@
                                == g.statement@;
                        assert(row_key(rows@[f]) != row_key(rows@[i as int]));
                        assert(jf != jg);
                    }
                }
                let ghost before = out@;
                let ghost ng = g;
                add_group(out, g);
                assert forall|p: int| 0 <= p < out@.len() implies has_origin(rows@, #[trigger] out@[p], i + 1) by {
                    if out@[p] != ng {
                        let q = choose|q: int| 0 <= q < before.len() && out@[p] == before[q];
                        let f = choose|f: int|
                            0 <= f < i && first_of_key(rows@, f) && group_of(before[q], rows@, f);
                    } else {
                        assert(group_of(out@[p], rows@, i as int));
                    }
                }
                assert forall|f: int|
                    0 <= f < i + 1 && first_of_key(rows@, f) && (exists|j: int|
                        0 <= j < rows@.len() && j != f && row_key(#[trigger] rows@[j]) == row_key(rows@[f]))
                        implies exists|p: int| 0 <= p < out@.len() && group_of(#[trigger] out@[p], rows@, f) by {
                    if f < i {
                        let q = choose|q: int| 0 <= q < before.len() && group_of(#[trigger] before[q], rows@, f);
                        let p = choose|p: int| 0 <= p < out@.len() && out@[p] == before[q];
                        assert(group_of(out@[p], rows@, f));
                    } else {
                        let p = choose|p: int| 0 <= p < out@.len() && out@[p] == ng;
                        assert(group_of(out@[p], rows@, f));
                    }
                }
            },
            None => {
                assert forall|f: int|
                    0 <= f < i + 1 && first_of_key(rows@, f) && (exists|j: int|
                        0 <= j < rows@.len() && j != f && row_key(#[trigger] rows@[j]) == row_key(rows@[f]))
                        implies exists|p: int| 0 <= p < out@.len() && group_of(#[trigger] out@[p], rows@, f) by {
                    if f == i {
                        let j = choose|j: int|
                            0 <= j < rows@.len() && j != f && row_key(#[trigger] rows@[j]) == row_key(rows@[f]);
                        assert(row_key(rows@[j]) != row_key(rows@[i as int]));
                    }
                }
            },
        }
    } else {
        assert forall|f: int|
            0 <= f < i + 1 && first_of_key(rows@, f) && (exists|j: int|
                0 <= j < rows@.len() && j != f && row_key(#[trigger] rows@[j]) == row_key(rows@[f]))
                implies exists|p: int| 0 <= p < out@.len() && group_of(#[trigger] out@[p], rows@, f) by {
            if f == i {
                let m = choose|m: int| 0 <= m < i && row_key(#[trigger] rows@[m]) == row_key(rows@[i as int]);
                assert(row_key(rows@[m]) != row_key(rows@[f]));
            }
        }
    }
}

/// A question held by the group of a key has that key.
proof fn lemma_member_key(g: DuplicateGroup, rows: Seq<DupRow>, f: int, id: i64)
    requires
        0 <= f < rows.len(),
        group_of(g, rows, f),
        group_holds(g, id),
    ensures
        exists|j: int| 0 <= j < rows.len() && rows[j].id == id && row_key(rows[j]) == row_key(rows[f]),
{
    if g.keep_id == id {
        let j = choose|j: int|
            0 <= j < rows.len() && row_key(rows[j]) == row_key(rows[f]) && rows[j].id == g.keep_id
                && rows[j].statement@ == g.statement@;
        assert(rows[j].id == id && row_key(rows[j]) == row_key(rows[f]));
    } else {
        let p = choose|p: int| 0 <= p < g.victims@.len() && (#[trigger] g.victims@[p]).id == id;
        let j = choose|j: int|
            0 <= j < rows.len() && row_key(rows[j]) == row_key(rows[f]) && rows[j].id == (
            #[trigger] g.victims@[p]).id && rows[j].subject_name@ == g.victims@[p].subject_name@;
        assert(rows[j].id == id && row_key(rows[j]) == row_key(rows[f]));
    }
}

/// Two groups of the same key keep the same question: the most recent one.
proof fn lemma_same_key_same_keep(rows: Seq<DupRow>, g1: DuplicateGroup, f1: int, g2: DuplicateGroup, f2: int)
    requires
        0 <= f1 < rows.len(),
        0 <= f2 < rows.len(),
        group_of(g1, rows, f1),
        group_of(g2, rows, f2),
        row_key(rows[f1]) == row_key(rows[f2]),
    ensures
        g1.keep_id == g2.keep_id,
{
    let j1 = choose|j: int|
        0 <= j < rows.len() && row_key(rows[j]) == row_key(rows[f1]) && rows[j].id == g1.keep_id
            && rows[j].statement@ == g1.statement@;
    let j2 = choose|j: int|
        0 <= j < rows.len() && row_key(rows[j]) == row_key(rows[f2]) && rows[j].id == g2.keep_id
            && rows[j].statement@ == g2.statement@;
    assert(group_holds(g2, rows[j1].id));
    assert(group_holds(g1, rows[j2].id));
    if g1.keep_id != g2.keep_id {
        let p = choose|p: int| 0 <= p < g2.victims@.len() && (#[trigger] g2.victims@[p]).id == g1.keep_id;
        let q = choose|q: int| 0 <= q < g1.victims@.len() && (#[trigger] g1.victims@[q]).id == g2.keep_id;
        assert(g2.victims@[p].id < g2.keep_id);
        assert(g1.victims@[q].id < g1.keep_id);
    }
}

/// The groups of duplicated questions, from the largest to the smallest and
/// then by statement. Two questions are duplicates when they have the same key
/// (`full_key`); in each group the most recent question (highest id) is
/// kept. Every question that has a duplicate is in a group, and in one only.
/// The history counts are left at 0 for the caller to fill.
#[verifier::rlimit(60)]
pub fn duplicate_groups(rows: &[DupRow]) -> (r: Vec<DuplicateGroup>)
    requires
        distinct_ids(rows@),
    ensures
        forall|p: int| 0 <= p < r@.len() ==> has_origin(rows@, #[trigger] r@[p], rows@.len() as int),
        forall|p: int, q: int| 0 <= p < q < r@.len() ==> (#[trigger] r@[p]).keep_id != (#[trigger] r@[q]).keep_id,
        forall|p: int, q: int, id: i64|
            0 <= p < q < r@.len() && #[trigger] group_holds(r@[p], id) ==> !#[trigger] group_holds(
                r@[q],
                id,
            ),
        forall|i: int|
            #![trigger rows@[i]]
            0 <= i < rows@.len() && (exists|j: int|
                0 <= j < rows@.len() && j != i && row_key(#[trigger] rows@[j]) == row_key(rows@[i]))
                ==> exists|p: int| 0 <= p < r@.len() && group_holds(#[trigger] r@[p], rows@[i].id),
        groups_sorted(r@),
{
    let mut keys: Vec<String> = Vec::new();
    let mut a: usize = 0;
    while a < rows.len()
        invariant
            a <= rows@.len(),
            keys@.len() == a,
            forall|j: int| 0 <= j < a ==> (#[trigger] keys@[j])@ == row_key(rows@[j]),
        decreases rows@.len() - a,
    {
        let row: &DupRow = &rows[a];
        let fig: Option<&str> = match &row.figure {
            Some(f) => Some(f.as_str()),
            None => None,
        };
        keys.push(full_key(row.kind.as_str(), row.statement.as_str(), fig));
        a = a + 1;
    }
    let mut out: Vec<DuplicateGroup> = Vec::new();
    let mut i: usize = 0;
    while i < rows.len()
        invariant
            i <= rows@.len(),
            keys@.len() == rows@.len(),
            forall|j: int| 0 <= j < rows@.len() ==> (#[trigger] keys@[j])@ == row_key(rows@[j]),
            distinct_ids(rows@),
            groups_so_far(rows@, out@, i as int),
        decreases rows@.len() - i,
    {
        next_group(rows, &keys, i, &mut out);
        i = i + 1;
    }
    assert forall|i: int|
        #![trigger rows@[i]]
        0 <= i < rows@.len() && (exists|j: int|
            0 <= j < rows@.len() && j != i && row_key(#[trigger] rows@[j]) == row_key(rows@[i]))
            implies exists|p: int| 0 <= p < out@.len() && group_holds(#[trigger] out@[p], rows@[i].id) by {
        lemma_first_exists(rows@, i);
        let f = choose|f: int| 0 <= f <= i && first_of_key(rows@, f) && row_key(rows@[f]) == row_key(rows@[i]);
        let j = choose|j: int| 0 <= j < rows@.len() && j != i && row_key(#[trigger] rows@[j]) == row_key(rows@[i]);
        let other: int = if f != i { i } else { j };
        assert(other != f && row_key(rows@[other]) == row_key(rows@[f]));
        let p = choose|p: int| 0 <= p < out@.len() && group_of(#[trigger] out@[p], rows@, f);
        assert(group_holds(out@[p], rows@[i].id));
    }
    assert forall|p: int, q: int, id: i64|
        0 <= p < q < out@.len() && #[trigger] group_holds(out@[p], id) implies !#[trigger] group_holds(
            out@[q],
            id,
        ) by {
        if group_holds(out@[q], id) {
            let fp = choose|f: int| 0 <= f < rows@.len() && first_of_key(rows@, f) && group_of(out@[p], rows@, f);
            let fq = choose|f: int| 0 <= f < rows@.len() && first_of_key(rows@, f) && group_of(out@[q], rows@, f);
            lemma_member_key(out@[p], rows@, fp, id);
            lemma_member_key(out@[q], rows@, fq, id);
            let jp = choose|j: int| 0 <= j < rows@.len() && rows@[j].id == id && row_key(rows@[j]) == row_key(rows@[fp]);
            let jq = choose|j: int| 0 <= j < rows@.len() && rows@[j].id == id && row_key(rows@[j]) == row_key(rows@[fq]);
            assert(jp == jq);
            lemma_same_key_same_keep(rows@, out@[p], fp, out@[q], fq);
        }
    }
    out
}

// ===== The history of the questions that go ===========================================

/// The number of quizzes of question `id` among the counts `(id, n)`: the
/// first count listed for it, or 0 when none is.
pub open spec fn history_of(counts: Seq<(i64, i64)>, id: i64) -> i64
    decreases counts.len(),
{
    if counts.len() == 0 {
        0
    } else if counts[0].0 == id {
        counts[0].1
    } else {
        history_of(counts.drop_first(), id)
    }
}

fn count_for(counts: &[(i64, i64)], id: i64) -> (r: i64)
    ensures
        r == history_of(counts@, id),
{
    let mut i: usize = counts.len();
    let mut found: i64 = 0;
    assert(counts@.skip(counts@.len() as int) =~= Seq::<(i64, i64)>::empty());
    while i > 0
        invariant
            i <= counts@.len(),
            found == history_of(counts@.skip(i as int), id),
        decreases i,
    {
        i = i - 1;
        assert(counts@.skip(i as int).drop_first() =~= counts@.skip(i + 1));
        assert(counts@.skip(i as int)[0] == counts@[i as int]);
        if counts[i].0 == id {
            found = counts[i].1;
        }
    }
    assert(counts@.skip(0) =~= counts@);
    found
}

/// The groups with the history of each question that goes: `counts` gives,
/// by question id, the number of quizzes it appeared in (0 when not listed).
/// Everything else is kept as it is.
pub fn with_history(groups: &[DuplicateGroup], counts: &[(i64, i64)]) -> (r: Vec<DuplicateGroup>)
    ensures
        r@.len() == groups@.len(),
        forall|p: int|
            0 <= p < r@.len() ==> {
                let g = #[trigger] groups@[p];
                &&& r@[p].statement@ == g.statement@
                &&& r@[p].keep_id == g.keep_id
                &&& r@[p].victims@.len() == g.victims@.len()
                &&& forall|v: int|
                    0 <= v < g.victims@.len() ==> (#[trigger] r@[p].victims@[v]).id
                        == g.victims@[v].id && r@[p].victims@[v].subject_name@
                        == g.victims@[v].subject_name@ && r@[p].victims@[v].history_count
                        == history_of(counts@, g.victims@[v].id)
            },
{
    let mut out: Vec<DuplicateGroup> = Vec::new();
    let mut p: usize = 0;
    while p < groups.len()
        invariant
            p <= groups@.len(),
            out@.len() == p,
            forall|q: int|
                0 <= q < p ==> {
                    let g = #[trigger] groups@[q];
                    &&& out@[q].statement@ == g.statement@
                    &&& out@[q].keep_id == g.keep_id
                    &&& out@[q].victims@.len() == g.victims@.len()
                    &&& forall|v: int|
                        0 <= v < g.victims@.len() ==> (#[trigger] out@[q].victims@[v]).id
                            == g.victims@[v].id && out@[q].victims@[v].subject_name@
                            == g.victims@[v].subject_name@ && out@[q].victims@[v].history_count
                            == history_of(counts@, g.victims@[v].id)
                },
        decreases groups@.len() - p,
    {
        let g: &DuplicateGroup = &groups[p];
        let mut victims: Vec<Victim> = Vec::new();
        let mut v: usize = 0;
        while v < g.victims.len()
            invariant
                v <= g.victims@.len(),
                victims@.len() == v,
                forall|w: int|
                    0 <= w < v ==> (#[trigger] victims@[w]).id == g.victims@[w].id
                        && victims@[w].subject_name@ == g.victims@[w].subject_name@
                        && victims@[w].history_count == history_of(counts@, g.victims@[w].id),
            decreases g.victims@.len() - v,
        {
            let old: &Victim = &g.victims[v];
            let n: i64 = count_for(counts, old.id);
            victims.push(Victim { id: old.id, subject_name: old.subject_name.clone(), history_count: n });
            v = v + 1;
        }
        out.push(DuplicateGroup { statement: g.statement.clone(), keep_id: g.keep_id, victims });
        p = p + 1;
    }
    out
}

} // verus!
