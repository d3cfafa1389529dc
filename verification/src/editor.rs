//! The drawing editor: a blank grid covered with clickable zones, one per cell
//! (`grid_cells`) or one per unit edge (`grid_lines`). Each zone becomes a
//! checkbox whose posted value is the canonical token of its mark, so that a
//! drawing is an ordinary form.

use vstd::prelude::*;

use crate::grid::{
    all_plain, count, edge_text, in_cells, is_unit_edge, lemma_edge_text, lemma_point_text,
    lemma_read_cell, lemma_read_edge, point_text, push_point, spec_parse_cell, spec_parse_segment,
    token_cells, token_edges, Edge, Point, KIND_CELLS,
};
use crate::text::{chars_eq_str, chars_of, string_of, trim, trim_end, trim_start};

verus! {

/// One clickable zone of the blank grid.
///
/// Its place in the frame is given in cells from the top-left lattice point;
/// the page turns it into percentages of the frame.
#[derive(Debug, Clone)]
pub struct Toggle {
    /// The posted token — already canonical.
    pub value: String,
    pub class: &'static str,
    /// Row of the anchor point.
    pub top_row: i64,
    /// Column of the anchor point.
    pub left_col: i64,
    /// Rotation of an edge zone, in degrees: 0 across, 90 down, ±45 diagonal.
    pub rot: i64,
}

pub struct ToggleView {
    pub value: Seq<char>,
    pub class: Seq<char>,
    pub top_row: i64,
    pub left_col: i64,
    pub rot: i64,
}

impl View for Toggle {
    type V = ToggleView;

    open spec fn view(&self) -> ToggleView {
        ToggleView {
            value: self.value@,
            class: self.class@,
            top_row: self.top_row,
            left_col: self.left_col,
            rot: self.rot,
        }
    }
}

/// `f(r, c)` for the rows `r` of `0..n`, and in each row the columns `c` of `0..m`.
pub open spec fn grid_seq<T>(n: int, m: int, f: spec_fn(int, int) -> T) -> Seq<T>
    decreases n,
{
    if n <= 0 {
        Seq::empty()
    } else {
        grid_seq(n - 1, m, f) + Seq::new(count(m), |c: int| f(n - 1, c))
    }
}

pub open spec fn cell_at(r: int, c: int) -> Point {
    (r as i64, c as i64)
}

/// The two diagonals of the cell at row `r`, column `k / 2`: the falling one
/// for even `k`, the rising one for odd `k`.
pub open spec fn diag_at(r: int, k: int) -> Edge {
    if k % 2 == 0 {
        Edge { a: (r as i64, (k / 2) as i64), b: ((r + 1) as i64, (k / 2 + 1) as i64) }
    } else {
        Edge { a: (r as i64, (k / 2 + 1) as i64), b: ((r + 1) as i64, (k / 2) as i64) }
    }
}

pub open spec fn across_at(r: int, c: int) -> Edge {
    Edge { a: (r as i64, c as i64), b: (r as i64, (c + 1) as i64) }
}

pub open spec fn down_at(r: int, c: int) -> Edge {
    Edge { a: (r as i64, c as i64), b: ((r + 1) as i64, c as i64) }
}

pub open spec fn cell_fn() -> spec_fn(int, int) -> Point {
    |r: int, c: int| cell_at(r, c)
}

pub open spec fn diag_fn() -> spec_fn(int, int) -> Edge {
    |r: int, k: int| diag_at(r, k)
}

pub open spec fn across_fn() -> spec_fn(int, int) -> Edge {
    |r: int, c: int| across_at(r, c)
}

pub open spec fn down_fn() -> spec_fn(int, int) -> Edge {
    |r: int, c: int| down_at(r, c)
}

/// The cells of a `w`×`h` grid, row by row.
pub open spec fn cell_marks(w: i64, h: i64) -> Seq<Point> {
    grid_seq(h as int, w as int, cell_fn())
}

/// The unit edges of a `w`×`h` lattice in the order of the zones: the
/// diagonals first (their zones lie under the others), then the edges across,
/// then the edges down.
pub open spec fn edge_marks(w: i64, h: i64) -> Seq<Edge> {
    grid_seq(h as int, 2 * w, diag_fn()) + grid_seq(h + 1, w as int, across_fn()) + grid_seq(
        h as int,
        w + 1,
        down_fn(),
    )
}

pub open spec fn cell_toggle(p: Point) -> ToggleView {
    ToggleView { value: point_text(p), class: "g-cell"@, top_row: p.0, left_col: p.1, rot: 0 }
}

pub open spec fn edge_rot(e: Edge) -> i64 {
    if e.b.0 == e.a.0 {
        0
    } else if e.b.1 == e.a.1 {
        90
    } else if e.b.1 > e.a.1 {
        45
    } else {
        -45i64
    }
}

/// The zone of a unit edge: anchored at its upper-left end (the lower-left
/// one for a rising diagonal), turned along it. The diagonals are marked so
/// that the page draws them thinner where the two of a cell cross.
pub open spec fn edge_toggle(e: Edge) -> ToggleView {
    let rot = edge_rot(e);
    let rising = rot == -45;
    ToggleView {
        value: edge_text(e),
        class: if rot == 45 || rot == -45 {
            "g-edge is-diag"@
        } else {
            "g-edge"@
        },
        top_row: if rising {
            e.b.0
        } else {
            e.a.0
        },
        left_col: if rising {
            e.b.1
        } else {
            e.a.1
        },
        rot,
    }
}

fn cell_zone(r: i64, c: i64) -> (t: Toggle)
    ensures
        t@ == cell_toggle((r, c)),
{
    let mut v: Vec<char> = Vec::new();
    push_point(&mut v, &(r, c));
    Toggle { value: string_of(&v), class: "g-cell", top_row: r, left_col: c, rot: 0 }
}

fn edge_zone(e: Edge) -> (t: Toggle)
    ensures
        t@ == edge_toggle(e),
{
    let rot: i64 = if e.b.0 == e.a.0 {
        0
    } else if e.b.1 == e.a.1 {
        90
    } else if e.b.1 > e.a.1 {
        45
    } else {
        -45
    };
    let class: &'static str = if rot == 45 || rot == -45 {
        "g-edge is-diag"
    } else {
        "g-edge"
    };
    let (top_row, left_col): (i64, i64) = if rot == -45 {
        (e.b.0, e.b.1)
    } else {
        (e.a.0, e.a.1)
    };
    Toggle { value: e.token(), class, top_row, left_col, rot }
}

/// Every clickable zone of a blank `w`×`h` grid of the given kind: for cells,
/// one per cell, row by row; for segments, one per unit edge, diagonals first.
pub fn toggles(kind: &str, w: i64, h: i64) -> (r: Vec<Toggle>)
    requires
        w < i64::MAX,
        h < i64::MAX,
    ensures
        kind@ == KIND_CELLS@ ==> r@.len() == cell_marks(w, h).len() && forall|k: int|
            0 <= k < r@.len() ==> (#[trigger] r@[k])@ == cell_toggle(cell_marks(w, h)[k]),
        kind@ != KIND_CELLS@ ==> r@.len() == edge_marks(w, h).len() && forall|k: int|
            0 <= k < r@.len() ==> (#[trigger] r@[k])@ == edge_toggle(edge_marks(w, h)[k]),
{
    let mut out: Vec<Toggle> = Vec::new();
    let k: Vec<char> = chars_of(kind);
    if chars_eq_str(&k, KIND_CELLS) {
        let ghost mut marks: Seq<Point> = Seq::empty();
        let mut r: i64 = 0;
        while r < h
            invariant
                0 <= r,
                r <= count(h as int),
                marks == grid_seq(r as int, w as int, cell_fn()),
                out@.len() == marks.len(),
                forall|q: int| 0 <= q < out@.len() ==> (#[trigger] out@[q])@ == cell_toggle(marks[q]),
            decreases h - r,
        {
            let ghost base = marks;
            let mut c: i64 = 0;
            while c < w
                invariant
                    0 <= r < h,
                    0 <= c,
                    c <= count(w as int),
                    marks == base + Seq::new(c as nat, |j: int| cell_at(r as int, j)),
                    out@.len() == marks.len(),
                    forall|q: int| 0 <= q < out@.len() ==> (#[trigger] out@[q])@ == cell_toggle(
                        marks[q],
                    ),
                decreases w - c,
            {
                out.push(cell_zone(r, c));
                proof {
                    marks = marks.push(cell_at(r as int, c as int));
                    assert(base + Seq::new((c + 1) as nat, |j: int| cell_at(r as int, j)) =~= marks);
                }
                c = c + 1;
            }
            assert(Seq::new(c as nat, |j: int| cell_at(r as int, j)) =~= Seq::new(
                count(w as int),
                |j: int| cell_fn()(r as int, j),
            ));
            r = r + 1;
        }
        proof {
            assert(marks == cell_marks(w, h));
        }
        return out;
    }
    let ghost mut marks: Seq<Edge> = Seq::empty();
    // The diagonals first: their zones lie under those of the straight edges.
    let mut r: i64 = 0;
    while r < h
        invariant
            w < i64::MAX,
            0 <= r,
            r <= count(h as int),
            marks == grid_seq(r as int, 2 * w, diag_fn()),
            out@.len() == marks.len(),
            forall|q: int| 0 <= q < out@.len() ==> (#[trigger] out@[q])@ == edge_toggle(marks[q]),
        decreases h - r,
    {
        let ghost base = marks;
        let mut c: i64 = 0;
        while c < w
            invariant
                w < i64::MAX,
                0 <= r < h,
                0 <= c,
                c <= count(w as int),
                marks == base + Seq::new((2 * c) as nat, |j: int| diag_at(r as int, j)),
                out@.len() == marks.len(),
                forall|q: int| 0 <= q < out@.len() ==> (#[trigger] out@[q])@ == edge_toggle(
                    marks[q],
                ),
            decreases w - c,
        {
            let fall: Edge = Edge { a: (r, c), b: (r + 1, c + 1) };
            let rise: Edge = Edge::new((r + 1, c), (r, c + 1));
            out.push(edge_zone(fall));
            out.push(edge_zone(rise));
            proof {
                assert(fall == diag_at(r as int, 2 * c));
                assert(rise == diag_at(r as int, 2 * c + 1));
                marks = marks.push(fall).push(rise);
                assert(base + Seq::new((2 * (c + 1)) as nat, |j: int| diag_at(r as int, j))
                    =~= marks);
            }
            c = c + 1;
        }
        assert(Seq::new((2 * c) as nat, |j: int| diag_at(r as int, j)) =~= Seq::new(
            count(2 * w),
            |j: int| diag_fn()(r as int, j),
        ));
        r = r + 1;
    }
    let ghost diags = marks;
    assert(diags == grid_seq(h as int, 2 * w, diag_fn()));
    let mut r: i64 = 0;
    while r <= h
        invariant
            h < i64::MAX,
            0 <= r,
            r <= count(h + 1),
            marks == diags + grid_seq(r as int, w as int, across_fn()),
            out@.len() == marks.len(),
            forall|q: int| 0 <= q < out@.len() ==> (#[trigger] out@[q])@ == edge_toggle(marks[q]),
        decreases h - r + 1,
    {
        let ghost base = marks;
        let mut c: i64 = 0;
        while c < w
            invariant
                0 <= r <= h,
                0 <= c,
                c <= count(w as int),
                marks == base + Seq::new(c as nat, |j: int| across_at(r as int, j)),
                out@.len() == marks.len(),
                forall|q: int| 0 <= q < out@.len() ==> (#[trigger] out@[q])@ == edge_toggle(
                    marks[q],
                ),
            decreases w - c,
        {
            let e: Edge = Edge { a: (r, c), b: (r, c + 1) };
            out.push(edge_zone(e));
            proof {
                marks = marks.push(e);
                assert(base + Seq::new((c + 1) as nat, |j: int| across_at(r as int, j)) =~= marks);
            }
            c = c + 1;
        }
        assert(Seq::new(c as nat, |j: int| across_at(r as int, j)) =~= Seq::new(
            count(w as int),
            |j: int| across_fn()(r as int, j),
        ));
        assert(diags + grid_seq(r + 1, w as int, across_fn()) =~= base + Seq::new(
            count(w as int),
            |j: int| across_fn()(r as int, j),
        ));
        r = r + 1;
    }
    let ghost straight = marks;
    assert(straight == diags + grid_seq(h + 1, w as int, across_fn()));
    let mut r: i64 = 0;
    while r < h
        invariant
            w < i64::MAX,
            0 <= r,
            r <= count(h as int),
            marks == straight + grid_seq(r as int, w + 1, down_fn()),
            out@.len() == marks.len(),
            forall|q: int| 0 <= q < out@.len() ==> (#[trigger] out@[q])@ == edge_toggle(marks[q]),
        decreases h - r,
    {
        let ghost base = marks;
        let mut c: i64 = 0;
        while c <= w
            invariant
                w < i64::MAX,
                0 <= r < h,
                0 <= c,
                c <= count(w + 1),
                marks == base + Seq::new(c as nat, |j: int| down_at(r as int, j)),
                out@.len() == marks.len(),
                forall|q: int| 0 <= q < out@.len() ==> (#[trigger] out@[q])@ == edge_toggle(
                    marks[q],
                ),
            decreases w - c + 1,
        {
            let e: Edge = Edge { a: (r, c), b: (r + 1, c) };
            out.push(edge_zone(e));
            proof {
                marks = marks.push(e);
                assert(base + Seq::new((c + 1) as nat, |j: int| down_at(r as int, j)) =~= marks);
            }
            c = c + 1;
        }
        assert(Seq::new(c as nat, |j: int| down_at(r as int, j)) =~= Seq::new(
            count(w + 1),
            |j: int| down_fn()(r as int, j),
        ));
        assert(straight + grid_seq(r + 1, w + 1, down_fn()) =~= base + Seq::new(
            count(w + 1),
            |j: int| down_fn()(r as int, j),
        ));
        r = r + 1;
    }
    assert(marks =~= edge_marks(w, h));
    out
}

// ===== Every mark offered once, and read back as itself ========================

/// `f` gives distinct values on `0..n` × `0..m`.
pub open spec fn injective_on<T>(n: int, m: int, f: spec_fn(int, int) -> T) -> bool {
    forall|r1: int, c1: int, r2: int, c2: int|
        0 <= r1 < n && 0 <= c1 < m && 0 <= r2 < n && 0 <= c2 < m && #[trigger] f(r1, c1)
            == #[trigger] f(r2, c2) ==> r1 == r2 && c1 == c2
}

pub proof fn lemma_grid_seq<T>(n: int, m: int, f: spec_fn(int, int) -> T)
    requires
        0 <= n,
        0 <= m,
    ensures
        grid_seq(n, m, f).len() == n * m,
        forall|x: T|
            #[trigger] grid_seq(n, m, f).contains(x) <==> exists|r: int, c: int|
                0 <= r < n && 0 <= c < m && #[trigger] f(r, c) == x,
    decreases n,
{
    if n > 0 {
        lemma_grid_seq(n - 1, m, f);
        let prev = grid_seq(n - 1, m, f);
        let row = Seq::new(count(m), |c: int| f(n - 1, c));
        let s = grid_seq(n, m, f);
        assert(s == prev + row);
        assert((n - 1) * m + m == n * m) by (nonlinear_arith);
        assert forall|x: T| s.contains(x) <==> exists|r: int, c: int|
            0 <= r < n && 0 <= c < m && #[trigger] f(r, c) == x by {
            if s.contains(x) {
                let i = choose|i: int| 0 <= i < s.len() && s[i] == x;
                if i < prev.len() {
                    assert(prev[i] == x);
                    assert(prev.contains(x));
                    let (r, c) = choose|r: int, c: int|
                        0 <= r < n - 1 && 0 <= c < m && #[trigger] f(r, c) == x;
                    assert(f(r, c) == x);
                } else {
                    let c = i - prev.len();
                    assert(row[c] == x);
                    assert(f(n - 1, c) == x);
                }
            }
            if exists|r: int, c: int| 0 <= r < n && 0 <= c < m && #[trigger] f(r, c) == x {
                let (r, c) = choose|r: int, c: int|
                    0 <= r < n && 0 <= c < m && #[trigger] f(r, c) == x;
                if r < n - 1 {
                    assert(f(r, c) == x);
                    assert(prev.contains(x));
                    let i = choose|i: int| 0 <= i < prev.len() && prev[i] == x;
                    assert(s[i] == x);
                } else {
                    assert(row[c] == x);
                    assert(s[prev.len() + c] == x);
                }
            }
        }
    }
}

pub proof fn lemma_grid_seq_unique<T>(n: int, m: int, f: spec_fn(int, int) -> T)
    requires
        0 <= n,
        0 <= m,
        injective_on(n, m, f),
    ensures
        grid_seq(n, m, f).no_duplicates(),
    decreases n,
{
    if n > 0 {
        assert(injective_on(n - 1, m, f));
        lemma_grid_seq_unique(n - 1, m, f);
        lemma_grid_seq(n - 1, m, f);
        let prev = grid_seq(n - 1, m, f);
        let row = Seq::new(count(m), |c: int| f(n - 1, c));
        let s = grid_seq(n, m, f);
        assert(s == prev + row);
        assert forall|i: int, j: int| 0 <= i < s.len() && 0 <= j < s.len() && i != j implies s[i]
            != s[j] by {
            let p = prev.len() as int;
            if i < p && j < p {
            } else if i >= p && j >= p {
                assert(row[i - p] == f(n - 1, i - p));
                assert(row[j - p] == f(n - 1, j - p));
            } else if i < p {
                assert(prev.contains(prev[i]));
                let (r, c) = choose|r: int, c: int|
                    0 <= r < n - 1 && 0 <= c < m && #[trigger] f(r, c) == prev[i];
                assert(row[j - p] == f(n - 1, j - p));
            } else {
                assert(prev.contains(prev[j]));
                let (r, c) = choose|r: int, c: int|
                    0 <= r < n - 1 && 0 <= c < m && #[trigger] f(r, c) == prev[j];
                assert(row[i - p] == f(n - 1, i - p));
            }
        }
    }
}

proof fn lemma_concat_unique<T>(a: Seq<T>, b: Seq<T>)
    requires
        a.no_duplicates(),
        b.no_duplicates(),
        forall|x: T| a.contains(x) ==> !b.contains(x),
    ensures
        (a + b).no_duplicates(),
        forall|x: T| #[trigger] (a + b).contains(x) <==> a.contains(x) || b.contains(x),
{
    let s = a + b;
    assert forall|i: int, j: int| 0 <= i < s.len() && 0 <= j < s.len() && i != j implies s[i]
        != s[j] by {
        if i < a.len() && j >= a.len() {
            assert(a.contains(a[i]));
            assert(b.contains(b[j - a.len()]));
        } else if j < a.len() && i >= a.len() {
            assert(a.contains(a[j]));
            assert(b.contains(b[i - a.len()]));
        } else if i >= a.len() {
            assert(s[i] == b[i - a.len()]);
            assert(s[j] == b[j - a.len()]);
        }
    }
    assert forall|x: T| #[trigger] s.contains(x) <==> a.contains(x) || b.contains(x) by {
        if s.contains(x) {
            let i = choose|i: int| 0 <= i < s.len() && s[i] == x;
            if i < a.len() {
                assert(a[i] == x);
            } else {
                assert(b[i - a.len()] == x);
            }
        }
        if a.contains(x) {
            let i = choose|i: int| 0 <= i < a.len() && a[i] == x;
            assert(s[i] == x);
        }
        if b.contains(x) {
            let i = choose|i: int| 0 <= i < b.len() && b[i] == x;
            assert(s[a.len() + i] == x);
        }
    }
}

pub open spec fn is_diag(e: Edge, w: i64, h: i64) -> bool {
    is_unit_edge(e, w, h) && e.b.0 == e.a.0 + 1 && e.b.1 != e.a.1
}

pub open spec fn is_across(e: Edge, w: i64, h: i64) -> bool {
    is_unit_edge(e, w, h) && e.b.0 == e.a.0
}

pub open spec fn is_down(e: Edge, w: i64, h: i64) -> bool {
    is_unit_edge(e, w, h) && e.b.0 == e.a.0 + 1 && e.b.1 == e.a.1
}

proof fn lemma_cell_marks(w: i64, h: i64)
    requires
        0 <= w,
        0 <= h,
    ensures
        cell_marks(w, h).len() == w * h,
        cell_marks(w, h).no_duplicates(),
        forall|p: Point| #[trigger] cell_marks(w, h).contains(p) <==> in_cells(p, w, h),
{
    let f = cell_fn();
    lemma_grid_seq(h as int, w as int, f);
    assert(h * w == w * h) by (nonlinear_arith);
    assert(injective_on(h as int, w as int, f));
    lemma_grid_seq_unique(h as int, w as int, f);
    assert forall|p: Point| #[trigger] cell_marks(w, h).contains(p) <==> in_cells(p, w, h) by {
        if in_cells(p, w, h) {
            assert(f(p.0 as int, p.1 as int) == p);
        }
    }
}

proof fn lemma_diag_marks(w: i64, h: i64)
    requires
        0 <= w,
        0 <= h,
    ensures
        grid_seq(h as int, 2 * w, diag_fn()).len() == 2 * w * h,
        grid_seq(h as int, 2 * w, diag_fn()).no_duplicates(),
        forall|e: Edge| #[trigger] grid_seq(h as int, 2 * w, diag_fn()).contains(e) <==> is_diag(
            e,
            w,
            h,
        ),
{
    let f = diag_fn();
    lemma_grid_seq(h as int, 2 * w, f);
    assert(h * (2 * w) == 2 * w * h) by (nonlinear_arith);
    assert(injective_on(h as int, 2 * w, f));
    lemma_grid_seq_unique(h as int, 2 * w, f);
    assert forall|e: Edge| #[trigger] grid_seq(h as int, 2 * w, f).contains(e) <==> is_diag(
        e,
        w,
        h,
    ) by {
        if is_diag(e, w, h) {
            if e.b.1 == e.a.1 + 1 {
                assert(f(e.a.0 as int, 2 * e.a.1) == e);
            } else {
                assert(f(e.a.0 as int, 2 * e.b.1 + 1) == e);
            }
        }
    }
}

proof fn lemma_across_marks(w: i64, h: i64)
    requires
        0 <= w,
        0 <= h < i64::MAX,
    ensures
        grid_seq(h + 1, w as int, across_fn()).len() == (h + 1) * w,
        grid_seq(h + 1, w as int, across_fn()).no_duplicates(),
        forall|e: Edge| #[trigger] grid_seq(h + 1, w as int, across_fn()).contains(e)
            <==> is_across(e, w, h),
{
    let f = across_fn();
    lemma_grid_seq(h + 1, w as int, f);
    assert(injective_on(h + 1, w as int, f));
    lemma_grid_seq_unique(h + 1, w as int, f);
    assert forall|e: Edge| #[trigger] grid_seq(h + 1, w as int, f).contains(e) <==> is_across(
        e,
        w,
        h,
    ) by {
        if is_across(e, w, h) {
            assert(f(e.a.0 as int, e.a.1 as int) == e);
        }
    }
}

proof fn lemma_down_marks(w: i64, h: i64)
    requires
        0 <= w < i64::MAX,
        0 <= h,
    ensures
        grid_seq(h as int, w + 1, down_fn()).len() == h * (w + 1),
        grid_seq(h as int, w + 1, down_fn()).no_duplicates(),
        forall|e: Edge| #[trigger] grid_seq(h as int, w + 1, down_fn()).contains(e) <==> is_down(
            e,
            w,
            h,
        ),
{
    let f = down_fn();
    lemma_grid_seq(h as int, w + 1, f);
    assert(injective_on(h as int, w + 1, f));
    lemma_grid_seq_unique(h as int, w + 1, f);
    assert forall|e: Edge| #[trigger] grid_seq(h as int, w + 1, f).contains(e) <==> is_down(
        e,
        w,
        h,
    ) by {
        if is_down(e, w, h) {
            assert(f(e.a.0 as int, e.a.1 as int) == e);
        }
    }
}

proof fn lemma_trim_plain(s: Seq<char>)
    requires
        all_plain(s),
        s.len() > 0,
    ensures
        trim(s) == s,
{
    assert(crate::grid::plain(s[0]));
    assert(crate::grid::plain(s[s.len() - 1]));
    assert(trim_start(s) == s);
}

/// The zones of the editor cover the grid exactly: for cells, one zone per
/// cell of the grid; for segments, one per unit edge of the lattice,
/// `(h+1)·w` across, `h·(w+1)` down and two diagonals per cell. No two zones
/// post the same value, and the value of each zone, sent alone, is read back
/// as exactly its own mark.
pub proof fn lemma_toggles_cover(w: i64, h: i64)
    requires
        0 <= w < i64::MAX,
        0 <= h < i64::MAX,
    ensures
        cell_marks(w, h).len() == w * h,
        forall|p: Point| #[trigger] cell_marks(w, h).contains(p) <==> in_cells(p, w, h),
        forall|i: int, j: int|
            0 <= i < cell_marks(w, h).len() && 0 <= j < cell_marks(w, h).len() && i != j
                ==> point_text(#[trigger] cell_marks(w, h)[i]) != point_text(
                #[trigger] cell_marks(w, h)[j],
            ),
        forall|p: Point| #[trigger]
            in_cells(p, w, h) ==> token_cells(seq![point_text(p)], w, h) == set![p],
        edge_marks(w, h).len() == (h + 1) * w + h * (w + 1) + 2 * w * h,
        forall|e: Edge| #[trigger] edge_marks(w, h).contains(e) <==> is_unit_edge(e, w, h),
        forall|i: int, j: int|
            0 <= i < edge_marks(w, h).len() && 0 <= j < edge_marks(w, h).len() && i != j
                ==> edge_text(#[trigger] edge_marks(w, h)[i]) != edge_text(
                #[trigger] edge_marks(w, h)[j],
            ),
        forall|e: Edge| #[trigger]
            is_unit_edge(e, w, h) ==> token_edges(seq![edge_text(e)], w, h) == set![e],
{
    reveal_with_fuel(token_cells, 2);
    reveal_with_fuel(token_edges, 2);
    lemma_cell_marks(w, h);
    let cm = cell_marks(w, h);
    assert forall|i: int, j: int| 0 <= i < cm.len() && 0 <= j < cm.len() && i != j implies point_text(
        #[trigger] cm[i],
    ) != point_text(#[trigger] cm[j]) by {
        assert(cm.contains(cm[i]));
        assert(cm.contains(cm[j]));
        lemma_read_cell(cm[i], w, h);
        lemma_read_cell(cm[j], w, h);
    }
    assert forall|p: Point| #[trigger] in_cells(p, w, h) implies token_cells(
        seq![point_text(p)],
        w,
        h,
    ) == set![p] by {
        lemma_point_text(p);
        lemma_trim_plain(point_text(p));
        lemma_read_cell(p, w, h);
        let ts = seq![point_text(p)];
        assert(ts.drop_last() =~= Seq::<Seq<char>>::empty());
        assert(token_cells(ts, w, h) =~= set![p]);
    }
    lemma_diag_marks(w, h);
    lemma_across_marks(w, h);
    lemma_down_marks(w, h);
    let d = grid_seq(h as int, 2 * w, diag_fn());
    let a = grid_seq(h + 1, w as int, across_fn());
    let v = grid_seq(h as int, w + 1, down_fn());
    lemma_concat_unique(d, a);
    lemma_concat_unique(d + a, v);
    let em = edge_marks(w, h);
    assert(em == d + a + v);
    assert((h + 1) * w + h * (w + 1) + 2 * w * h == 2 * w * h + (h + 1) * w + h * (w + 1));
    assert forall|e: Edge| #[trigger] em.contains(e) <==> is_unit_edge(e, w, h) by {
        if is_unit_edge(e, w, h) {
            if e.b.0 == e.a.0 {
                assert(a.contains(e));
            } else if e.b.1 == e.a.1 {
                assert(v.contains(e));
            } else {
                assert(d.contains(e));
            }
        }
    }
    assert forall|i: int, j: int| 0 <= i < em.len() && 0 <= j < em.len() && i != j implies edge_text(
        #[trigger] em[i],
    ) != edge_text(#[trigger] em[j]) by {
        assert(em.contains(em[i]));
        assert(em.contains(em[j]));
        lemma_read_edge(em[i], w, h);
        lemma_read_edge(em[j], w, h);
        assert(seq![em[i]][0] == em[i]);
        assert(seq![em[j]][0] == em[j]);
    }
    assert forall|e: Edge| #[trigger] is_unit_edge(e, w, h) implies token_edges(
        seq![edge_text(e)],
        w,
        h,
    ) == set![e] by {
        lemma_edge_text(e, w, h);
        lemma_trim_plain(edge_text(e));
        lemma_read_edge(e, w, h);
        let ts = seq![edge_text(e)];
        assert(ts.drop_last() =~= Seq::<Seq<char>>::empty());
        assert forall|x: Edge| seq![e].to_set().contains(x) <==> x == e by {
            assert(seq![e][0] == e);
            if seq![e].contains(x) {
                let i = choose|i: int| 0 <= i < 1 && seq![e][i] == x;
            }
        }
        assert(seq![e].to_set() =~= set![e]);
        assert(token_edges(ts, w, h) =~= set![e]);
    }
}

} // verus!
