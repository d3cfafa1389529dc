//! A figure drawn with characters, for the console preview of a question.
//!
//! Cells: one row of text per row of cells, two characters per cell.
//! Segments: a canvas of `(2h+1)` rows of `(2w+1)` characters, where the
//! lattice points fall on the even/even places and each unit edge on the place
//! between its two ends.

use vstd::prelude::*;

use crate::grid::{concat, count, join, Edge, Figure, FigureView, Grid, GridView, Point};
use crate::sorted::contains_key;
use crate::text::{push_str, string_of};

verus! {

/// The drawing of one cell: full if it is coloured, a dot otherwise.
pub open spec fn cell_glyph(cells: Set<Point>, r: int, c: int) -> Seq<char> {
    if cells.contains((r as i64, c as i64)) {
        "██"@
    } else {
        "· "@
    }
}

pub open spec fn cells_row_text(cells: Set<Point>, r: int, w: int) -> Seq<char> {
    concat(Seq::new(count(w), |c: int| cell_glyph(cells, r, c)))
}

/// The character at row `i`, column `j` of the canvas of a segment figure.
pub open spec fn canvas_char(edges: Set<Edge>, i: int, j: int) -> char {
    if i % 2 == 0 && j % 2 == 0 {
        '·'
    } else if i % 2 == 0 {
        if edges.contains(Edge { a: ((i / 2) as i64, (j / 2) as i64), b: ((i / 2) as i64, (j / 2 + 1) as i64) }) {
            '─'
        } else {
            ' '
        }
    } else if j % 2 == 0 {
        if edges.contains(Edge { a: ((i / 2) as i64, (j / 2) as i64), b: ((i / 2 + 1) as i64, (j / 2) as i64) }) {
            '│'
        } else {
            ' '
        }
    } else {
        let back = edges.contains(
            Edge { a: ((i / 2) as i64, (j / 2) as i64), b: ((i / 2 + 1) as i64, (j / 2 + 1) as i64) },
        );
        let fwd = edges.contains(
            Edge { a: ((i / 2) as i64, (j / 2 + 1) as i64), b: ((i / 2 + 1) as i64, (j / 2) as i64) },
        );
        if back && fwd {
            '╳'
        } else if back {
            '╲'
        } else if fwd {
            '╱'
        } else {
            ' '
        }
    }
}

pub open spec fn canvas_row_text(edges: Set<Edge>, i: int, w: int) -> Seq<char> {
    Seq::new(count(2 * w + 1), |j: int| canvas_char(edges, i, j))
}

/// What [`Grid::ascii`] writes: the rows, joined by line breaks.
pub open spec fn ascii_text(g: GridView) -> Seq<char> {
    match g.figure {
        FigureView::Cells(s) => join(
            Seq::new(count(g.h as int), |r: int| cells_row_text(s, r, g.w as int)),
            '\n',
        ),
        FigureView::Edges(s) => join(
            Seq::new(count(2 * g.h + 1), |i: int| canvas_row_text(s, i, g.w as int)),
            '\n',
        ),
    }
}

/// The largest side a canvas is drawn for: its indices must fit in an `i64`.
pub open spec fn canvas_fits(w: i64, h: i64) -> bool {
    0 <= w < 0x4000_0000 && 0 <= h < 0x4000_0000
}

proof fn lemma_concat_push(parts: Seq<Seq<char>>, x: Seq<char>)
    ensures
        concat(parts.push(x)) == concat(parts) + x,
{
    assert(parts.push(x).drop_last() =~= parts);
}

proof fn lemma_join_next(parts: Seq<Seq<char>>, i: int, sep: char)
    requires
        0 <= i < parts.len(),
    ensures
        i == 0 ==> join(parts.take(i + 1), sep) == parts[i],
        i > 0 ==> join(parts.take(i + 1), sep) == join(parts.take(i), sep) + seq![sep] + parts[i],
{
    assert(parts.take(i + 1).drop_last() =~= parts.take(i));
    if i == 0 {
        assert(parts.take(1)[0] == parts[0]);
    }
}

fn push_cells_row(out: &mut Vec<char>, cells: &[Point], r: i64, w: i64)
    ensures
        final(out)@ == old(out)@ + cells_row_text(cells@.to_set(), r as int, w as int),
{
    let ghost start = out@;
    let ghost s = cells@.to_set();
    let ghost row = Seq::new(count(w as int), |c: int| cell_glyph(s, r as int, c));
    let mut c: i64 = 0;
    assert(row.take(0) =~= Seq::<Seq<char>>::empty());
    while c < w
        invariant
            0 <= c,
            c <= count(w as int),
            s == cells@.to_set(),
            row == Seq::new(count(w as int), |c: int| cell_glyph(s, r as int, c)),
            out@ == start + concat(row.take(c as int)),
        decreases w - c,
    {
        let ghost before = out@;
        let p: Point = (r, c);
        if contains_key(cells, &p) {
            push_str(out, "██");
        } else {
            push_str(out, "· ");
        }
        assert(out@ =~= before + row[c as int]);
        assert(row.take(c + 1) =~= row.take(c as int).push(row[c as int]));
        proof {
            lemma_concat_push(row.take(c as int), row[c as int]);
        }
        c = c + 1;
    }
    assert(row.take(c as int) =~= row);
}

fn canvas_at(edges: &[Edge], i: i64, j: i64) -> (r: char)
    requires
        0 <= i <= 0x8000_0000,
        0 <= j <= 0x8000_0000,
    ensures
        r == canvas_char(edges@.to_set(), i as int, j as int),
{
    let hi: i64 = i / 2;
    let hj: i64 = j / 2;
    if i % 2 == 0 && j % 2 == 0 {
        '·'
    } else if i % 2 == 0 {
        let e: Edge = Edge { a: (hi, hj), b: (hi, hj + 1) };
        if contains_key(edges, &e) {
            '─'
        } else {
            ' '
        }
    } else if j % 2 == 0 {
        let e: Edge = Edge { a: (hi, hj), b: (hi + 1, hj) };
        if contains_key(edges, &e) {
            '│'
        } else {
            ' '
        }
    } else {
        let b: Edge = Edge { a: (hi, hj), b: (hi + 1, hj + 1) };
        let f: Edge = Edge { a: (hi, hj + 1), b: (hi + 1, hj) };
        let back: bool = contains_key(edges, &b);
        let fwd: bool = contains_key(edges, &f);
        if back && fwd {
            '╳'
        } else if back {
            '╲'
        } else if fwd {
            '╱'
        } else {
            ' '
        }
    }
}

fn push_canvas_row(out: &mut Vec<char>, edges: &[Edge], i: i64, w: i64)
    requires
        0 <= i <= 0x8000_0000,
        0 <= w < 0x4000_0000,
    ensures
        final(out)@ == old(out)@ + canvas_row_text(edges@.to_set(), i as int, w as int),
{
    let ghost start = out@;
    let ghost s = edges@.to_set();
    let ghost row = Seq::new(count(2 * w + 1), |j: int| canvas_char(s, i as int, j));
    let mut j: i64 = 0;
    assert(row.take(0) =~= Seq::<char>::empty());
    while j <= 2 * w
        invariant
            0 <= i <= 0x8000_0000,
            0 <= w < 0x4000_0000,
            0 <= j <= 2 * w + 1,
            s == edges@.to_set(),
            row == Seq::new(count(2 * w + 1), |j: int| canvas_char(s, i as int, j)),
            out@ == start + row.take(j as int),
        decreases 2 * w + 1 - j,
    {
        let ch: char = canvas_at(edges, i, j);
        out.push(ch);
        assert(row.take(j + 1) =~= row.take(j as int).push(row[j as int]));
        j = j + 1;
    }
    assert(row.take(j as int) =~= row);
}

impl Grid {
    /// The figure, readable in a terminal.
    pub fn ascii(&self) -> (r: String)
        requires
            self.figure is Edges ==> canvas_fits(self.w, self.h),
        ensures
            r@ == ascii_text(self@),
    {
        let mut out: Vec<char> = Vec::new();
        match &self.figure {
            Figure::Cells(cells) => {
                let ghost s = cells@.to_set();
                let ghost rows = Seq::new(
                    count(self.h as int),
                    |r: int| cells_row_text(s, r, self.w as int),
                );
                let mut r: i64 = 0;
                assert(rows.take(0) =~= Seq::<Seq<char>>::empty());
                while r < self.h
                    invariant
                        0 <= r,
                        r <= count(self.h as int),
                        s == cells@.to_set(),
                        rows == Seq::new(
                            count(self.h as int),
                            |r: int| cells_row_text(s, r, self.w as int),
                        ),
                        out@ == join(rows.take(r as int), '\n'),
                    decreases self.h - r,
                {
                    if r > 0 {
                        out.push('\n');
                    }
                    push_cells_row(&mut out, cells, r, self.w);
                    proof {
                        lemma_join_next(rows, r as int, '\n');
                    }
                    r = r + 1;
                }
                assert(rows.take(r as int) =~= rows);
            },
            Figure::Edges(edges) => {
                let ghost s = edges@.to_set();
                let ghost rows = Seq::new(
                    count(2 * self.h + 1),
                    |i: int| canvas_row_text(s, i, self.w as int),
                );
                let mut i: i64 = 0;
                assert(rows.take(0) =~= Seq::<Seq<char>>::empty());
                while i <= 2 * self.h
                    invariant
                        canvas_fits(self.w, self.h),
                        0 <= i <= 2 * self.h + 1,
                        s == edges@.to_set(),
                        rows == Seq::new(
                            count(2 * self.h + 1),
                            |i: int| canvas_row_text(s, i, self.w as int),
                        ),
                        out@ == join(rows.take(i as int), '\n'),
                    decreases 2 * self.h + 1 - i,
                {
                    if i > 0 {
                        out.push('\n');
                    }
                    push_canvas_row(&mut out, edges, i, self.w);
                    proof {
                        lemma_join_next(rows, i as int, '\n');
                    }
                    i = i + 1;
                }
                assert(rows.take(i as int) =~= rows);
            },
        }
        string_of(&out)
    }
}

} // verus!
