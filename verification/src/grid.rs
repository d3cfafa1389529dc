//! Figures to copy: the question kinds `grid_cells` (coloured cells) and
//! `grid_lines` (segments joining the lattice points).
//!
//! Everything enters through [`Grid::parse`] or [`Grid::from_tokens`] and
//! comes out as a SET: a set of cells, or a set of UNIT edges with ordered
//! ends. A long segment is cut into unit edges, so that one long stroke and
//! three short ones are the same drawing, and grading is set equality.

use vstd::prelude::*;

use crate::sorted::{
    insert_sorted, lemma_push_to_set, select, lemma_sorted_no_duplicates, lemma_sorted_unique, sorted, Key,
};
use crate::text::{
    all_digits, ascii_lower, is_digit, is_space, lemma_nat_text, lemma_parse_nat_text, nat_text,
    chars_eq_str, chars_of, find_char, find_in, int_text, parse_i64, parse_int, push_chars,
    push_int, push_str, split_chars, split_on, squash_lower, squash_lower_chars, string_of,
    trim, trim_bounds, views,
};

verus! {

pub const KIND_CELLS: &'static str = "grid_cells";

pub const KIND_LINES: &'static str = "grid_lines";

/// Smallest and largest side of a grid. The upper bound is defensive: a forged
/// payload must not make the page draw tens of thousands of cells.
pub const MIN_SIDE: i64 = 2;

pub const MAX_SIDE: i64 = 12;

/// Whether `kind` is one of the two grid kinds.
pub fn is_grid_kind(kind: &str) -> (r: bool)
    ensures
        r == (kind@ == KIND_CELLS@ || kind@ == KIND_LINES@),
{
    let k: Vec<char> = chars_of(kind);
    chars_eq_str(&k, KIND_CELLS) || chars_eq_str(&k, KIND_LINES)
}

/// `(row, column)`. A CELL lives in `0..h` × `0..w`; a lattice VERTEX lives in
/// `0..=h` × `0..=w`.
pub type Point = (i64, i64);

impl Key for (i64, i64) {
    open spec fn lt(self, other: Self) -> bool {
        self.0 < other.0 || (self.0 == other.0 && self.1 < other.1)
    }

    proof fn lt_irreflexive(a: Self) {
    }

    proof fn lt_transitive(a: Self, b: Self, c: Self) {
    }

    proof fn lt_total(a: Self, b: Self) {
    }

    fn less(&self, other: &Self) -> (r: bool) {
        self.0 < other.0 || (self.0 == other.0 && self.1 < other.1)
    }

    fn same(&self, other: &Self) -> (r: bool) {
        self.0 == other.0 && self.1 == other.1
    }
}

/// An edge ONE cell long, ends always ordered: `a <= b`. That imposed order is
/// what makes a stroke drawn right to left the same object.
#[derive(Debug, Clone, Copy, PartialEq, Eq, PartialOrd, Ord)]
pub struct Edge {
    pub a: Point,
    pub b: Point,
}

impl Key for Edge {
    open spec fn lt(self, other: Self) -> bool {
        self.a.lt(other.a) || (self.a == other.a && self.b.lt(other.b))
    }

    proof fn lt_irreflexive(a: Self) {
    }

    proof fn lt_transitive(a: Self, b: Self, c: Self) {
    }

    proof fn lt_total(a: Self, b: Self) {
    }

    fn less(&self, other: &Self) -> (r: bool) {
        self.a.less(&other.a) || (self.a.same(&other.a) && self.b.less(&other.b))
    }

    fn same(&self, other: &Self) -> (r: bool) {
        self.a.same(&other.a) && self.b.same(&other.b)
    }
}

/// The edge between two points, ends in increasing order.
pub open spec fn edge_new(a: Point, b: Point) -> Edge {
    if !b.lt(a) {
        Edge { a, b }
    } else {
        Edge { a: b, b: a }
    }
}

/// `r,c` as it is written in a payload.
pub open spec fn point_text(p: Point) -> Seq<char> {
    int_text(p.0 as int) + seq![','] + int_text(p.1 as int)
}

/// `r,c-r,c` as it is written in a payload.
pub open spec fn edge_text(e: Edge) -> Seq<char> {
    point_text(e.a) + seq!['-'] + point_text(e.b)
}

impl Edge {
    pub fn new(a: Point, b: Point) -> (r: Edge)
        ensures
            r == edge_new(a, b),
    {
        if !b.less(&a) {
            Edge { a, b }
        } else {
            Edge { a: b, b: a }
        }
    }

    /// The payload token of the edge: `r,c-r,c`.
    pub fn token(&self) -> (r: String)
        ensures
            r@ == edge_text(*self),
    {
        let mut out: Vec<char> = Vec::new();
        push_edge(&mut out, self);
        string_of(&out)
    }
}

pub(crate) fn push_point(out: &mut Vec<char>, p: &Point)
    ensures
        final(out)@ == old(out)@ + point_text(*p),
{
    let ghost start = out@;
    push_int(out, p.0);
    out.push(',');
    push_int(out, p.1);
    assert(out@ =~= start + point_text(*p));
}

fn push_edge(out: &mut Vec<char>, e: &Edge)
    ensures
        final(out)@ == old(out)@ + edge_text(*e),
{
    let ghost start = out@;
    push_point(out, &e.a);
    out.push('-');
    push_point(out, &e.b);
    assert(out@ =~= start + edge_text(*e));
}

#[derive(Debug, Clone, PartialEq, Eq)]
pub enum Figure {
    /// The coloured cells, in increasing order, each once.
    Cells(Vec<Point>),
    /// The drawn unit edges, in increasing order, each once.
    Edges(Vec<Edge>),
}

#[derive(Debug, Clone, PartialEq, Eq)]
pub struct Grid {
    /// Number of cell columns.
    pub w: i64,
    /// Number of cell rows.
    pub h: i64,
    pub figure: Figure,
}

/// What a figure is: a set of cells, or a set of unit edges.
pub enum FigureView {
    Cells(Set<Point>),
    Edges(Set<Edge>),
}

/// What a grid is: its size and its figure.
pub struct GridView {
    pub w: i64,
    pub h: i64,
    pub figure: FigureView,
}

impl View for Grid {
    type V = GridView;

    open spec fn view(&self) -> GridView {
        GridView {
            w: self.w,
            h: self.h,
            figure: match self.figure {
                Figure::Cells(v) => FigureView::Cells(v@.to_set()),
                Figure::Edges(v) => FigureView::Edges(v@.to_set()),
            },
        }
    }
}

pub open spec fn in_cells(p: Point, w: i64, h: i64) -> bool {
    0 <= p.0 < h && 0 <= p.1 < w
}

pub open spec fn in_lattice(p: Point, w: i64, h: i64) -> bool {
    0 <= p.0 <= h && 0 <= p.1 <= w
}

/// A unit edge of the lattice: horizontal, vertical or diagonal, one cell long.
pub open spec fn is_unit_edge(e: Edge, w: i64, h: i64) -> bool {
    let dr = e.b.0 - e.a.0;
    let dc = e.b.1 - e.a.1;
    &&& in_lattice(e.a, w, h)
    &&& in_lattice(e.b, w, h)
    &&& (dr == 0 && dc == 1) || (dr == 1 && (dc == 0 || dc == 1 || dc == -1))
}

pub open spec fn cells_wf(s: Seq<Point>, w: i64, h: i64) -> bool {
    sorted(s) && forall|i: int| 0 <= i < s.len() ==> in_cells(#[trigger] s[i], w, h)
}

pub open spec fn edges_wf(s: Seq<Edge>, w: i64, h: i64) -> bool {
    sorted(s) && forall|i: int| 0 <= i < s.len() ==> is_unit_edge(#[trigger] s[i], w, h)
}

impl Grid {
    /// The figure is written once, in increasing order, and lies on the grid.
    pub open spec fn wf(&self) -> bool {
        match self.figure {
            Figure::Cells(v) => cells_wf(v@, self.w, self.h),
            Figure::Edges(v) => edges_wf(v@, self.w, self.h),
        }
    }
}

pub open spec fn kind_of(f: FigureView) -> Seq<char> {
    match f {
        FigureView::Cells(_) => KIND_CELLS@,
        FigureView::Edges(_) => KIND_LINES@,
    }
}

pub open spec fn marks_of(f: FigureView) -> nat {
    match f {
        FigureView::Cells(s) => s.len(),
        FigureView::Edges(s) => s.len(),
    }
}

// ===== Reading ================================================================

pub open spec fn said(pre: Seq<char>, t: Seq<char>, post: Seq<char>) -> Seq<char> {
    pre + t + post
}

pub open spec fn size_text(w: i64, h: i64) -> Seq<char> {
    int_text(w as int) + "×"@ + int_text(h as int)
}

/// What `parse_cell` gives for one token.
pub open spec fn spec_parse_cell(t: Seq<char>, w: i64, h: i64) -> Result<Point, Seq<char>> {
    match find_char(t, ',') {
        None => Err(said("case « "@, t, " » illisible (attendu « ligne,colonne »)"@)),
        Some(i) => match parse_int(t.take(i)) {
            None => Err(said("case « "@, t, " » : ligne illisible"@)),
            Some(r) => match parse_int(t.skip(i + 1)) {
                None => Err(said("case « "@, t, " » : colonne illisible"@)),
                Some(c) => if 0 <= r < h && 0 <= c < w {
                    Ok((r as i64, c as i64))
                } else {
                    Err(said("case « "@, t, " » hors de la grille "@) + size_text(w, h))
                },
            },
        },
    }
}

/// What `parse_vertex` gives for one token.
pub open spec fn spec_parse_vertex(t: Seq<char>, w: i64, h: i64) -> Result<Point, Seq<char>> {
    match find_char(t, ',') {
        None => Err(said("point « "@, t, " » illisible (attendu « ligne,colonne »)"@)),
        Some(i) => match parse_int(t.take(i)) {
            None => Err(said("point « "@, t, " » : ligne illisible"@)),
            Some(r) => match parse_int(t.skip(i + 1)) {
                None => Err(said("point « "@, t, " » : colonne illisible"@)),
                Some(c) => if 0 <= r <= h && 0 <= c <= w {
                    Ok((r as i64, c as i64))
                } else {
                    Err(said("point « "@, t, " » hors du treillis "@) + size_text(w, h))
                },
            },
        },
    }
}

pub open spec fn sign(x: int) -> int {
    if x > 0 {
        1
    } else if x < 0 {
        -1
    } else {
        0
    }
}

pub open spec fn abs(x: int) -> int {
    if x < 0 {
        -x
    } else {
        x
    }
}

/// `x` moved `i` steps in direction `s`.
pub open spec fn step(x: i64, i: int, s: int) -> int {
    if s > 0 {
        x + i
    } else if s < 0 {
        x - i
    } else {
        x as int
    }
}

/// The `i`-th point on the way from `a` in direction `(sr, sc)`.
pub open spec fn walk(a: Point, i: int, sr: int, sc: int) -> Point {
    (step(a.0, i, sr) as i64, step(a.1, i, sc) as i64)
}

/// The unit edges that a segment from `a` to `b` covers, from `a` on.
pub open spec fn segment_edges(a: Point, b: Point) -> Seq<Edge> {
    let dr = b.0 - a.0;
    let dc = b.1 - a.1;
    let steps = if abs(dr) >= abs(dc) {
        abs(dr)
    } else {
        abs(dc)
    };
    Seq::new(
        steps as nat,
        |i: int| edge_new(walk(a, i, sign(dr), sign(dc)), walk(a, i + 1, sign(dr), sign(dc))),
    )
}

/// What `parse_segment` gives for one token: the unit edges of the segment.
/// Only horizontal, vertical and 45° diagonal segments exist on these grids.
pub open spec fn spec_parse_segment(t: Seq<char>, w: i64, h: i64) -> Result<
    Seq<Edge>,
    Seq<char>,
> {
    match find_char(t, '-') {
        None => Err(said("segment « "@, t, " » illisible (attendu « r,c-r,c »)"@)),
        Some(i) => match spec_parse_vertex(t.take(i), w, h) {
            Err(e) => Err(e),
            Ok(a) => match spec_parse_vertex(t.skip(i + 1), w, h) {
                Err(e) => Err(e),
                Ok(b) => {
                    let dr = b.0 - a.0;
                    let dc = b.1 - a.1;
                    if dr == 0 && dc == 0 {
                        Err(
                            said(
                                "segment « "@,
                                t,
                                " » : les deux extrémités sont le même point"@,
                            ),
                        )
                    } else if dr != 0 && dc != 0 && abs(dr) != abs(dc) {
                        Err(
                            said(
                                "segment « "@,
                                t,
                                " » : ni horizontal, ni vertical, ni diagonal à 45°"@,
                            ),
                        )
                    } else {
                        Ok(segment_edges(a, b))
                    }
                },
            },
        },
    }
}

/// The cells of a payload body, token by token; the first bad token decides.
pub open spec fn spec_cells(ts: Seq<Seq<char>>, w: i64, h: i64) -> Result<Set<Point>, Seq<char>>
    decreases ts.len(),
{
    if ts.len() == 0 {
        Ok(Set::empty())
    } else {
        match spec_cells(ts.drop_last(), w, h) {
            Err(e) => Err(e),
            Ok(s) => if ts.last().len() == 0 {
                Ok(s)
            } else {
                match spec_parse_cell(ts.last(), w, h) {
                    Err(e) => Err(e),
                    Ok(p) => Ok(s.insert(p)),
                }
            },
        }
    }
}

/// The unit edges of a payload body, token by token; the first bad token decides.
pub open spec fn spec_edges(ts: Seq<Seq<char>>, w: i64, h: i64) -> Result<Set<Edge>, Seq<char>>
    decreases ts.len(),
{
    if ts.len() == 0 {
        Ok(Set::empty())
    } else {
        match spec_edges(ts.drop_last(), w, h) {
            Err(e) => Err(e),
            Ok(s) => if ts.last().len() == 0 {
                Ok(s)
            } else {
                match spec_parse_segment(ts.last(), w, h) {
                    Err(e) => Err(e),
                    Ok(es) => Ok(s.union(es.to_set())),
                }
            },
        }
    }
}

/// The figure part of a payload, after the size and the `:`.
pub open spec fn spec_parse_figure(rest: Seq<char>, w: i64, h: i64) -> Result<GridView, Seq<char>> {
    match find_char(rest, '=') {
        None => Err(said("« "@, rest, " » : attendu « c=… » ou « e=… »"@)),
        Some(k) => {
            let marker = rest.take(k);
            let tokens = split_on(rest.skip(k + 1), ';');
            if marker == seq!['c'] {
                match spec_cells(tokens, w, h) {
                    Err(e) => Err(e),
                    Ok(s) => Ok(GridView { w, h, figure: FigureView::Cells(s) }),
                }
            } else if marker == seq!['e'] {
                match spec_edges(tokens, w, h) {
                    Err(e) => Err(e),
                    Ok(s) => Ok(GridView { w, h, figure: FigureView::Edges(s) }),
                }
            } else {
                Err(
                    said(
                        "marqueur « "@,
                        marker,
                        " » inconnu (attendu « c » pour les cases, « e » pour les segments)"@,
                    ),
                )
            }
        },
    }
}

/// What [`Grid::parse`] gives for a payload `LxH:c=r,c;…` or `LxH:e=r,c-r,c;…`,
/// read once white space is dropped and letters are lowercased.
pub open spec fn spec_parse(raw: Seq<char>) -> Result<GridView, Seq<char>> {
    let s = squash_lower(raw);
    if s.len() == 0 {
        Err("figure vide : attendu « 8x8:c=… » ou « 8x8:e=… »"@)
    } else {
        match find_char(s, ':') {
            None => Err(said("« "@, raw, " » : il manque le « : » après la taille"@)),
            Some(i) => {
                let dims = s.take(i);
                let rest = s.skip(i + 1);
                match find_char(dims, 'x') {
                    None => Err(said("taille « "@, dims, " » illisible (attendu « 8x8 »)"@)),
                    Some(j) => {
                        let ws = dims.take(j);
                        let hs = dims.skip(j + 1);
                        match parse_int(ws) {
                            None => Err(said("largeur « "@, ws, " » n'est pas un nombre"@)),
                            Some(w) => match parse_int(hs) {
                                None => Err(said("hauteur « "@, hs, " » n'est pas un nombre"@)),
                                Some(h) => if !(MIN_SIDE <= w <= MAX_SIDE) {
                                    Err("largeur "@ + int_text(w) + " hors de [2,12]"@)
                                } else if !(MIN_SIDE <= h <= MAX_SIDE) {
                                    Err("hauteur "@ + int_text(h) + " hors de [2,12]"@)
                                } else {
                                    spec_parse_figure(rest, w as i64, h as i64)
                                },
                            },
                        }
                    },
                }
            },
        }
    }
}

/// What [`Grid::parse_as`] gives: `spec_parse`, and the figure must be of the
/// declared kind.
pub open spec fn spec_parse_as(kind: Seq<char>, raw: Seq<char>) -> Result<GridView, Seq<char>> {
    match spec_parse(raw) {
        Err(e) => Err(e),
        Ok(g) => if kind_of(g.figure) != kind {
            Err(
                "type '"@ + kind + "' déclaré, mais la figure est une figure de type '"@ + kind_of(
                    g.figure,
                ) + "'"@,
            )
        } else {
            Ok(g)
        },
    }
}

/// What [`Grid::validate_model`] gives: `spec_parse_as`, and the model must
/// have at least one mark.
pub open spec fn spec_validate_model(kind: Seq<char>, raw: Seq<char>) -> Result<
    GridView,
    Seq<char>,
> {
    match spec_parse_as(kind, raw) {
        Err(e) => Err(e),
        Ok(g) => if marks_of(g.figure) == 0 {
            Err("le modèle est vide : il n'y a rien à reproduire"@)
        } else {
            Ok(g)
        },
    }
}

/// The cells that the tokens of a drawing name, each trimmed; unreadable
/// tokens are ignored.
pub open spec fn token_cells(ts: Seq<Seq<char>>, w: i64, h: i64) -> Set<Point>
    decreases ts.len(),
{
    if ts.len() == 0 {
        Set::empty()
    } else {
        let s = token_cells(ts.drop_last(), w, h);
        match spec_parse_cell(trim(ts.last()), w, h) {
            Ok(p) => s.insert(p),
            Err(_) => s,
        }
    }
}

/// The unit edges that the tokens of a drawing name, each trimmed; unreadable
/// tokens are ignored.
pub open spec fn token_edges(ts: Seq<Seq<char>>, w: i64, h: i64) -> Set<Edge>
    decreases ts.len(),
{
    if ts.len() == 0 {
        Set::empty()
    } else {
        let s = token_edges(ts.drop_last(), w, h);
        match spec_parse_segment(trim(ts.last()), w, h) {
            Ok(es) => s.union(es.to_set()),
            Err(_) => s,
        }
    }
}

/// What [`Grid::from_tokens`] gives.
pub open spec fn spec_from_tokens(kind: Seq<char>, w: i64, h: i64, ts: Seq<Seq<char>>) -> GridView {
    GridView {
        w,
        h,
        figure: if kind == KIND_CELLS@ {
            FigureView::Cells(token_cells(ts, w, h))
        } else {
            FigureView::Edges(token_edges(ts, w, h))
        },
    }
}

pub open spec fn string_views(v: Seq<String>) -> Seq<Seq<char>> {
    v.map_values(|t: String| t@)
}

pub open spec fn point_texts(v: Seq<Point>) -> Seq<Seq<char>> {
    v.map_values(|p: Point| point_text(p))
}

pub open spec fn edge_texts(v: Seq<Edge>) -> Seq<Seq<char>> {
    v.map_values(|e: Edge| edge_text(e))
}

/// The canonical writing of a figure's body: tokens joined by `;`.
pub open spec fn join(parts: Seq<Seq<char>>, sep: char) -> Seq<char>
    decreases parts.len(),
{
    if parts.len() == 0 {
        Seq::empty()
    } else if parts.len() == 1 {
        parts[0]
    } else {
        join(parts.drop_last(), sep) + seq![sep] + parts.last()
    }
}

/// What [`Grid::serialize`] writes.
pub open spec fn serialize_text(g: Grid) -> Seq<char> {
    int_text(g.w as int) + seq!['x'] + int_text(g.h as int) + seq![':'] + match g.figure {
        Figure::Cells(v) => seq!['c', '='] + join(point_texts(v@), ';'),
        Figure::Edges(v) => seq!['e', '='] + join(edge_texts(v@), ';'),
    }
}

fn said_chars(pre: &str, t: &[char], post: &str) -> (r: Vec<char>)
    ensures
        r@ == said(pre@, t@, post@),
{
    let mut out: Vec<char> = Vec::new();
    push_str(&mut out, pre);
    push_chars(&mut out, t);
    push_str(&mut out, post);
    assert(out@ =~= said(pre@, t@, post@));
    out
}

fn push_size(out: &mut Vec<char>, w: i64, h: i64)
    ensures
        final(out)@ == old(out)@ + size_text(w, h),
{
    let ghost start = out@;
    push_int(out, w);
    push_str(out, "×");
    push_int(out, h);
    assert(out@ =~= start + size_text(w, h));
}

/// Reads one point token `r,c`; `cell` says whether it names a cell (`0..h`
/// × `0..w`) or a lattice vertex (`0..=h` × `0..=w`).
fn parse_point(t: &[char], w: i64, h: i64, cell: bool) -> (r: Result<Point, Vec<char>>)
    ensures
        cell ==> match r {
            Ok(p) => spec_parse_cell(t@, w, h) == Ok::<Point, Seq<char>>(p),
            Err(m) => spec_parse_cell(t@, w, h) == Err::<Point, Seq<char>>(m@),
        },
        !cell ==> match r {
            Ok(p) => spec_parse_vertex(t@, w, h) == Ok::<Point, Seq<char>>(p),
            Err(m) => spec_parse_vertex(t@, w, h) == Err::<Point, Seq<char>>(m@),
        },
{
    let what: &str = if cell {
        "case « "
    } else {
        "point « "
    };
    assert(t@.subrange(0, t@.len() as int) == t@);
    let i: usize = match find_in(t, 0, t.len(), ',') {
        None => {
            return Err(said_chars(what, t, " » illisible (attendu « ligne,colonne »)"));
        },
        Some(i) => i,
    };
    assert(t@.subrange(0, i as int) == t@.take(i as int));
    assert(t@.subrange(i + 1, t@.len() as int) == t@.skip(i + 1));
    let r: i64 = match parse_i64(t, 0, i) {
        None => {
            return Err(said_chars(what, t, " » : ligne illisible"));
        },
        Some(r) => r,
    };
    let c: i64 = match parse_i64(t, i + 1, t.len()) {
        None => {
            return Err(said_chars(what, t, " » : colonne illisible"));
        },
        Some(c) => c,
    };
    let inside: bool = if cell {
        0 <= r && r < h && 0 <= c && c < w
    } else {
        0 <= r && r <= h && 0 <= c && c <= w
    };
    if !inside {
        let mut m: Vec<char> = if cell {
            said_chars(what, t, " » hors de la grille ")
        } else {
            said_chars(what, t, " » hors du treillis ")
        };
        push_size(&mut m, w, h);
        return Err(m);
    }
    Ok((r, c))
}

/// Cuts a segment token `r,c-r,c` into its unit edges.
fn parse_segment(t: &[char], w: i64, h: i64) -> (r: Result<Vec<Edge>, Vec<char>>)
    ensures
        match r {
            Ok(es) => spec_parse_segment(t@, w, h) == Ok::<Seq<Edge>, Seq<char>>(es@),
            Err(m) => spec_parse_segment(t@, w, h) == Err::<Seq<Edge>, Seq<char>>(m@),
        },
{
    assert(t@.subrange(0, t@.len() as int) == t@);
    let i: usize = match find_in(t, 0, t.len(), '-') {
        None => {
            return Err(said_chars("segment « ", t, " » illisible (attendu « r,c-r,c »)"));
        },
        Some(i) => i,
    };
    let left: Vec<char> = crate::text::sub_chars(t, 0, i);
    let right: Vec<char> = crate::text::sub_chars(t, i + 1, t.len());
    assert(left@ == t@.take(i as int));
    assert(right@ == t@.skip(i + 1));
    let a: Point = match parse_point(&left, w, h, false) {
        Err(m) => {
            return Err(m);
        },
        Ok(p) => p,
    };
    let b: Point = match parse_point(&right, w, h, false) {
        Err(m) => {
            return Err(m);
        },
        Ok(p) => p,
    };
    let dr: i64 = b.0 - a.0;
    let dc: i64 = b.1 - a.1;
    if dr == 0 && dc == 0 {
        return Err(said_chars("segment « ", t, " » : les deux extrémités sont le même point"));
    }
    let adr: i64 = if dr < 0 {
        -dr
    } else {
        dr
    };
    let adc: i64 = if dc < 0 {
        -dc
    } else {
        dc
    };
    if dr != 0 && dc != 0 && adr != adc {
        return Err(
            said_chars("segment « ", t, " » : ni horizontal, ni vertical, ni diagonal à 45°"),
        );
    }
    let steps: i64 = if adr >= adc {
        adr
    } else {
        adc
    };
    let sr: i64 = if dr > 0 {
        1
    } else if dr < 0 {
        -1
    } else {
        0
    };
    let sc: i64 = if dc > 0 {
        1
    } else if dc < 0 {
        -1
    } else {
        0
    };
    let ghost target = segment_edges(a, b);
    let mut out: Vec<Edge> = Vec::new();
    let mut k: i64 = 0;
    let mut p: Point = a;
    while k < steps
        invariant
            0 <= k <= steps,
            steps == if abs(dr as int) >= abs(dc as int) {
                abs(dr as int)
            } else {
                abs(dc as int)
            },
            dr == b.0 - a.0,
            dc == b.1 - a.1,
            sr == sign(dr as int),
            sc == sign(dc as int),
            in_lattice(a, w, h),
            in_lattice(b, w, h),
            dr != 0 && dc != 0 ==> abs(dr as int) == abs(dc as int),
            target == segment_edges(a, b),
            p == walk(a, k as int, sr as int, sc as int),
            out@ == target.subrange(0, k as int),
        decreases steps - k,
    {
        let q: Point = (p.0 + sr, p.1 + sc);
        assert(q == walk(a, k + 1, sr as int, sc as int));
        let e: Edge = Edge::new(p, q);
        out.push(e);
        k = k + 1;
        p = q;
        assert(out@ =~= target.subrange(0, k as int));
    }
    assert(target.subrange(0, steps as int) =~= target);
    Ok(out)
}

proof fn lemma_cells_err_prefix(ts: Seq<Seq<char>>, k: int, w: i64, h: i64, e: Seq<char>)
    requires
        0 <= k <= ts.len(),
        spec_cells(ts.take(k), w, h) == Err::<Set<Point>, Seq<char>>(e),
    ensures
        spec_cells(ts, w, h) == Err::<Set<Point>, Seq<char>>(e),
    decreases ts.len() - k,
{
    if k == ts.len() {
        assert(ts.take(k) == ts);
    } else {
        assert(ts.drop_last().take(k) == ts.take(k));
        lemma_cells_err_prefix(ts.drop_last(), k, w, h, e);
    }
}

proof fn lemma_edges_err_prefix(ts: Seq<Seq<char>>, k: int, w: i64, h: i64, e: Seq<char>)
    requires
        0 <= k <= ts.len(),
        spec_edges(ts.take(k), w, h) == Err::<Set<Edge>, Seq<char>>(e),
    ensures
        spec_edges(ts, w, h) == Err::<Set<Edge>, Seq<char>>(e),
    decreases ts.len() - k,
{
    if k == ts.len() {
        assert(ts.take(k) == ts);
    } else {
        assert(ts.drop_last().take(k) == ts.take(k));
        lemma_edges_err_prefix(ts.drop_last(), k, w, h, e);
    }
}

/// Every edge that a segment of the lattice covers is a unit edge of the lattice.
proof fn lemma_segment_unit(a: Point, b: Point, w: i64, h: i64)
    requires
        in_lattice(a, w, h),
        in_lattice(b, w, h),
        !(b.0 - a.0 == 0 && b.1 - a.1 == 0),
        (b.0 - a.0) != 0 && (b.1 - a.1) != 0 ==> abs(b.0 - a.0) == abs(b.1 - a.1),
    ensures
        forall|i: int|
            0 <= i < segment_edges(a, b).len() ==> is_unit_edge(
                #[trigger] segment_edges(a, b)[i],
                w,
                h,
            ),
{
    let dr = b.0 - a.0;
    let dc = b.1 - a.1;
    assert forall|i: int| 0 <= i < segment_edges(a, b).len() implies is_unit_edge(
        #[trigger] segment_edges(a, b)[i],
        w,
        h,
    ) by {
        let p = walk(a, i, sign(dr), sign(dc));
        let q = walk(a, i + 1, sign(dr), sign(dc));
        assert(in_lattice(p, w, h));
        assert(in_lattice(q, w, h));
    }
}

proof fn lemma_parse_segment_unit(t: Seq<char>, w: i64, h: i64)
    ensures
        spec_parse_segment(t, w, h) matches Ok(es) ==> forall|i: int|
            0 <= i < es.len() ==> is_unit_edge(#[trigger] es[i], w, h),
{
    match find_char(t, '-') {
        Some(i) => match spec_parse_vertex(t.take(i), w, h) {
            Ok(a) => match spec_parse_vertex(t.skip(i + 1), w, h) {
                Ok(b) => {
                    if spec_parse_segment(t, w, h) is Ok {
                        lemma_segment_unit(a, b, w, h);
                    }
                },
                _ => {},
            },
            _ => {},
        },
        None => {},
    }
}

/// Adds the edges of `es` to the increasing set `v`.
fn insert_edges(v: &mut Vec<Edge>, es: &[Edge], w: i64, h: i64)
    requires
        edges_wf(old(v)@, w, h),
        forall|i: int| 0 <= i < es@.len() ==> is_unit_edge(#[trigger] es@[i], w, h),
    ensures
        edges_wf(final(v)@, w, h),
        final(v)@.to_set() == old(v)@.to_set().union(es@.to_set()),
{
    let ghost start = v@.to_set();
    let mut j: usize = 0;
    while j < es.len()
        invariant
            j <= es@.len(),
            edges_wf(v@, w, h),
            forall|i: int| 0 <= i < es@.len() ==> is_unit_edge(#[trigger] es@[i], w, h),
            v@.to_set() == start.union(es@.take(j as int).to_set()),
        decreases es@.len() - j,
    {
        let e: Edge = es[j];
        let ghost before = v@;
        insert_sorted(v, e);
        assert forall|i: int| 0 <= i < v@.len() implies is_unit_edge(#[trigger] v@[i], w, h) by {
            assert(v@.to_set().contains(v@[i]));
            if v@[i] != e {
                assert(before.to_set().contains(v@[i]));
                let m = choose|m: int| 0 <= m < before.len() && before[m] == v@[i];
                assert(is_unit_edge(before[m], w, h));
            }
        }
        j = j + 1;
        assert(es@.take(j as int).to_set() == es@.take(j - 1).to_set().insert(e)) by {
            assert(es@.take(j as int) =~= es@.take(j - 1).push(e));
            lemma_push_to_set(es@.take(j - 1), e);
        }
        assert(v@.to_set() =~= start.union(es@.take(j as int).to_set()));
    }
    assert(es@.take(es@.len() as int) == es@);
}

/// The cells of the body tokens `ts`.
fn collect_cells(ts: &Vec<Vec<char>>, w: i64, h: i64) -> (r: Result<Vec<Point>, Vec<char>>)
    ensures
        match r {
            Ok(v) => cells_wf(v@, w, h) && spec_cells(views(ts@), w, h) == Ok::<
                Set<Point>,
                Seq<char>,
            >(v@.to_set()),
            Err(m) => spec_cells(views(ts@), w, h) == Err::<Set<Point>, Seq<char>>(m@),
        },
{
    let ghost vs = views(ts@);
    let mut v: Vec<Point> = Vec::new();
    let mut i: usize = 0;
    assert(vs.take(0) =~= Seq::<Seq<char>>::empty());
    assert(v@.to_set() =~= Set::<Point>::empty());
    while i < ts.len()
        invariant
            i <= ts@.len(),
            vs == views(ts@),
            cells_wf(v@, w, h),
            spec_cells(vs.take(i as int), w, h) == Ok::<Set<Point>, Seq<char>>(v@.to_set()),
        decreases ts@.len() - i,
    {
        let t: &Vec<char> = &ts[i];
        assert(vs.take(i + 1).drop_last() == vs.take(i as int));
        assert(vs.take(i + 1).last() == t@);
        if t.len() > 0 {
            match parse_point(t, w, h, true) {
                Err(m) => {
                    proof {
                        lemma_cells_err_prefix(vs, i + 1, w, h, m@);
                    }
                    return Err(m);
                },
                Ok(p) => {
                    let ghost before = v@;
                    insert_sorted(&mut v, p);
                    assert forall|k: int| 0 <= k < v@.len() implies in_cells(
                        #[trigger] v@[k],
                        w,
                        h,
                    ) by {
                        assert(v@.to_set().contains(v@[k]));
                        if v@[k] != p {
                            assert(before.to_set().contains(v@[k]));
                            let m = choose|m: int| 0 <= m < before.len() && before[m] == v@[k];
                            assert(in_cells(before[m], w, h));
                        }
                    }
                },
            }
        }
        i = i + 1;
    }
    assert(vs.take(ts@.len() as int) == vs);
    Ok(v)
}

/// The unit edges of the body tokens `ts`.
fn collect_edges(ts: &Vec<Vec<char>>, w: i64, h: i64) -> (r: Result<Vec<Edge>, Vec<char>>)
    ensures
        match r {
            Ok(v) => edges_wf(v@, w, h) && spec_edges(views(ts@), w, h) == Ok::<
                Set<Edge>,
                Seq<char>,
            >(v@.to_set()),
            Err(m) => spec_edges(views(ts@), w, h) == Err::<Set<Edge>, Seq<char>>(m@),
        },
{
    let ghost vs = views(ts@);
    let mut v: Vec<Edge> = Vec::new();
    let mut i: usize = 0;
    assert(vs.take(0) =~= Seq::<Seq<char>>::empty());
    assert(v@.to_set() =~= Set::<Edge>::empty());
    while i < ts.len()
        invariant
            i <= ts@.len(),
            vs == views(ts@),
            edges_wf(v@, w, h),
            spec_edges(vs.take(i as int), w, h) == Ok::<Set<Edge>, Seq<char>>(v@.to_set()),
        decreases ts@.len() - i,
    {
        let t: &Vec<char> = &ts[i];
        assert(vs.take(i + 1).drop_last() == vs.take(i as int));
        assert(vs.take(i + 1).last() == t@);
        if t.len() > 0 {
            match parse_segment(t, w, h) {
                Err(m) => {
                    proof {
                        lemma_edges_err_prefix(vs, i + 1, w, h, m@);
                    }
                    return Err(m);
                },
                Ok(es) => {
                    proof {
                        lemma_parse_segment_unit(t@, w, h);
                    }
                    insert_edges(&mut v, &es, w, h);
                },
            }
        }
        i = i + 1;
    }
    assert(vs.take(ts@.len() as int) == vs);
    Ok(v)
}

fn parse_chars(raw: &[char]) -> (r: Result<Grid, Vec<char>>)
    ensures
        match r {
            Ok(g) => g.wf() && spec_parse(raw@) == Ok::<GridView, Seq<char>>(g@),
            Err(m) => spec_parse(raw@) == Err::<GridView, Seq<char>>(m@),
        },
{
    let s: Vec<char> = squash_lower_chars(raw);
    let n: usize = s.len();
    if n == 0 {
        return Err(chars_of("figure vide : attendu « 8x8:c=… » ou « 8x8:e=… »"));
    }
    assert(s@.subrange(0, n as int) == s@);
    let i: usize = match find_in(&s, 0, n, ':') {
        None => {
            return Err(said_chars("« ", raw, " » : il manque le « : » après la taille"));
        },
        Some(i) => i,
    };
    let ghost dims = s@.take(i as int);
    let ghost rest = s@.skip(i + 1);
    assert(s@.subrange(0, i as int) == dims);
    let j: usize = match find_in(&s, 0, i, 'x') {
        None => {
            let d: Vec<char> = crate::text::sub_chars(&s, 0, i);
            return Err(said_chars("taille « ", &d, " » illisible (attendu « 8x8 »)"));
        },
        Some(j) => j,
    };
    assert(s@.subrange(0, j as int) == dims.take(j as int));
    assert(s@.subrange(j + 1, i as int) == dims.skip(j + 1));
    let w: i64 = match parse_i64(&s, 0, j) {
        None => {
            let d: Vec<char> = crate::text::sub_chars(&s, 0, j);
            return Err(said_chars("largeur « ", &d, " » n'est pas un nombre"));
        },
        Some(w) => w,
    };
    let h: i64 = match parse_i64(&s, j + 1, i) {
        None => {
            let d: Vec<char> = crate::text::sub_chars(&s, j + 1, i);
            return Err(said_chars("hauteur « ", &d, " » n'est pas un nombre"));
        },
        Some(h) => h,
    };
    if !(MIN_SIDE <= w && w <= MAX_SIDE) {
        let mut m: Vec<char> = chars_of("largeur ");
        push_int(&mut m, w);
        push_str(&mut m, " hors de [2,12]");
        return Err(m);
    }
    if !(MIN_SIDE <= h && h <= MAX_SIDE) {
        let mut m: Vec<char> = chars_of("hauteur ");
        push_int(&mut m, h);
        push_str(&mut m, " hors de [2,12]");
        return Err(m);
    }
    assert(s@.subrange(i + 1, n as int) == rest);
    let k: usize = match find_in(&s, i + 1, n, '=') {
        None => {
            let d: Vec<char> = crate::text::sub_chars(&s, i + 1, n);
            return Err(said_chars("« ", &d, " » : attendu « c=… » ou « e=… »"));
        },
        Some(k) => k,
    };
    let ghost marker = rest.take(k - i - 1);
    assert(s@.subrange(i + 1, k as int) == marker);
    assert(s@.subrange(k + 1, n as int) == rest.skip(k - i));
    let tokens: Vec<Vec<char>> = split_chars(&s, k + 1, n, ';');
    if k == i + 2 && s[i + 1] == 'c' {
        assert(marker =~= seq!['c']);
        match collect_cells(&tokens, w, h) {
            Err(m) => Err(m),
            Ok(v) => Ok(Grid { w, h, figure: Figure::Cells(v) }),
        }
    } else if k == i + 2 && s[i + 1] == 'e' {
        assert(marker =~= seq!['e']);
        match collect_edges(&tokens, w, h) {
            Err(m) => Err(m),
            Ok(v) => Ok(Grid { w, h, figure: Figure::Edges(v) }),
        }
    } else {
        assert(marker != seq!['c']) by {
            if k == i + 2 {
                assert(marker[0] == s@[i + 1]);
            }
        }
        assert(marker != seq!['e']) by {
            if k == i + 2 {
                assert(marker[0] == s@[i + 1]);
            }
        }
        let d: Vec<char> = crate::text::sub_chars(&s, i + 1, k);
        Err(
            said_chars(
                "marqueur « ",
                &d,
                " » inconnu (attendu « c » pour les cases, « e » pour les segments)",
            ),
        )
    }
}

proof fn lemma_join_step(parts: Seq<Seq<char>>, i: int, sep: char)
    requires
        0 < i < parts.len(),
    ensures
        join(parts.take(i + 1), sep) == join(parts.take(i), sep) + seq![sep] + parts[i],
{
    assert(parts.take(i + 1).drop_last() == parts.take(i));
}

impl Grid {
    /// Reads a payload: `LxH:c=r,c;r,c…` (cells) or `LxH:e=r,c-r,c;…`
    /// (segments). White space anywhere is ignored and letters are lowercased.
    pub fn parse(raw: &str) -> (r: Result<Grid, String>)
        ensures
            match r {
                Ok(g) => g.wf() && spec_parse(raw@) == Ok::<GridView, Seq<char>>(g@),
                Err(m) => spec_parse(raw@) == Err::<GridView, Seq<char>>(m@),
            },
    {
        let cs: Vec<char> = chars_of(raw);
        match parse_chars(&cs) {
            Ok(g) => Ok(g),
            Err(m) => Err(string_of(&m)),
        }
    }

    /// Like [`Grid::parse`], and the figure must be of the declared kind.
    pub fn parse_as(kind: &str, raw: &str) -> (r: Result<Grid, String>)
        ensures
            match r {
                Ok(g) => g.wf() && spec_parse_as(kind@, raw@) == Ok::<GridView, Seq<char>>(g@),
                Err(m) => spec_parse_as(kind@, raw@) == Err::<GridView, Seq<char>>(m@),
            },
    {
        let g: Grid = Grid::parse(raw)?;
        let gk: &str = g.kind();
        let k: Vec<char> = chars_of(kind);
        if !chars_eq_str(&k, gk) {
            let mut m: Vec<char> = chars_of("type '");
            push_str(&mut m, kind);
            push_str(&mut m, "' déclaré, mais la figure est une figure de type '");
            push_str(&mut m, gk);
            push_str(&mut m, "'");
            return Err(string_of(&m));
        }
        Ok(g)
    }

    /// A MODEL (the one the adult types): read as [`Grid::parse_as`], and it
    /// must not be empty — an empty model would be passed by drawing nothing.
    pub fn validate_model(kind: &str, raw: &str) -> (r: Result<Grid, String>)
        ensures
            match r {
                Ok(g) => g.wf() && spec_validate_model(kind@, raw@) == Ok::<GridView, Seq<char>>(
                    g@,
                ),
                Err(m) => spec_validate_model(kind@, raw@) == Err::<GridView, Seq<char>>(m@),
            },
    {
        let g: Grid = Grid::parse_as(kind, raw)?;
        if g.is_empty() {
            return Err(string_of(&chars_of("le modèle est vide : il n'y a rien à reproduire")));
        }
        Ok(g)
    }

    /// What the child ticked, token by token — one per cell or segment. A
    /// token that cannot be read is ignored, not fatal.
    pub fn from_tokens(kind: &str, w: i64, h: i64, tokens: &[String]) -> (r: Grid)
        ensures
            r.wf(),
            r@ == spec_from_tokens(kind@, w, h, string_views(tokens@)),
    {
        let ghost ts = string_views(tokens@);
        let k: Vec<char> = chars_of(kind);
        let cells: bool = chars_eq_str(&k, KIND_CELLS);
        let mut cv: Vec<Point> = Vec::new();
        let mut ev: Vec<Edge> = Vec::new();
        let mut i: usize = 0;
        assert(cv@.to_set() =~= Set::<Point>::empty());
        assert(ev@.to_set() =~= Set::<Edge>::empty());
        assert(ts.take(0) =~= Seq::<Seq<char>>::empty());
        while i < tokens.len()
            invariant
                i <= tokens@.len(),
                ts == string_views(tokens@),
                cells_wf(cv@, w, h),
                edges_wf(ev@, w, h),
                cells == (kind@ == KIND_CELLS@),
                cells ==> cv@.to_set() == token_cells(ts.take(i as int), w, h),
                !cells ==> ev@.to_set() == token_edges(ts.take(i as int), w, h),
            decreases tokens@.len() - i,
        {
            let t: Vec<char> = chars_of(tokens[i].as_str());
            assert(ts.take(i + 1).drop_last() == ts.take(i as int));
            assert(ts.take(i + 1).last() == t@);
            assert(t@.subrange(0, t@.len() as int) == t@);
            let (a, b): (usize, usize) = trim_bounds(&t, 0, t.len());
            let piece: Vec<char> = crate::text::sub_chars(&t, a, b);
            if cells {
                if let Ok(p) = parse_point(&piece, w, h, true) {
                    let ghost before = cv@;
                    insert_sorted(&mut cv, p);
                    assert forall|m: int| 0 <= m < cv@.len() implies in_cells(
                        #[trigger] cv@[m],
                        w,
                        h,
                    ) by {
                        assert(cv@.to_set().contains(cv@[m]));
                        if cv@[m] != p {
                            assert(before.to_set().contains(cv@[m]));
                            let q = choose|q: int| 0 <= q < before.len() && before[q] == cv@[m];
                            assert(in_cells(before[q], w, h));
                        }
                    }
                }
            } else {
                if let Ok(es) = parse_segment(&piece, w, h) {
                    proof {
                        lemma_parse_segment_unit(piece@, w, h);
                    }
                    insert_edges(&mut ev, &es, w, h);
                }
            }
            i = i + 1;
        }
        assert(ts.take(tokens@.len() as int) == ts);
        if cells {
            Grid { w, h, figure: Figure::Cells(cv) }
        } else {
            Grid { w, h, figure: Figure::Edges(ev) }
        }
    }

    /// A grid of the same size and kind, with no mark.
    pub fn blank_like(&self) -> (r: Grid)
        ensures
            r.wf(),
            r.w == self.w,
            r.h == self.h,
            kind_of(r@.figure) == kind_of(self@.figure),
            marks_of(r@.figure) == 0,
    {
        match self.figure {
            Figure::Cells(_) => {
                let v: Vec<Point> = Vec::new();
                assert(v@.to_set() =~= Set::<Point>::empty());
                Grid { w: self.w, h: self.h, figure: Figure::Cells(v) }
            },
            Figure::Edges(_) => {
                let v: Vec<Edge> = Vec::new();
                assert(v@.to_set() =~= Set::<Edge>::empty());
                Grid { w: self.w, h: self.h, figure: Figure::Edges(v) }
            },
        }
    }

    pub fn kind(&self) -> (r: &'static str)
        ensures
            r@ == kind_of(self@.figure),
    {
        match self.figure {
            Figure::Cells(_) => KIND_CELLS,
            Figure::Edges(_) => KIND_LINES,
        }
    }

    pub fn is_empty(&self) -> (r: bool)
        requires
            self.wf(),
        ensures
            r == (marks_of(self@.figure) == 0),
    {
        self.marks() == 0
    }

    /// Number of marks.
    pub fn marks(&self) -> (r: usize)
        requires
            self.wf(),
        ensures
            r == marks_of(self@.figure),
    {
        match &self.figure {
            Figure::Cells(c) => {
                proof {
                    lemma_sorted_no_duplicates(c@);
                }
                c.len()
            },
            Figure::Edges(e) => {
                proof {
                    lemma_sorted_no_duplicates(e@);
                }
                e.len()
            },
        }
    }

    /// Whether two grids are the same drawing: same size, same kind, same set
    /// of marks. This is how a drawing is graded.
    pub fn same(&self, other: &Grid) -> (r: bool)
        requires
            self.wf(),
            other.wf(),
        ensures
            r == (self@ == other@),
    {
        if self.w != other.w || self.h != other.h {
            return false;
        }
        match (&self.figure, &other.figure) {
            (Figure::Cells(a), Figure::Cells(b)) => {
                let r: bool = same_points(a, b);
                proof {
                    if !r {
                        if a@.to_set() == b@.to_set() {
                            lemma_sorted_unique(a@, b@);
                        }
                    }
                }
                r
            },
            (Figure::Edges(a), Figure::Edges(b)) => {
                let r: bool = same_edges(a, b);
                proof {
                    if !r {
                        if a@.to_set() == b@.to_set() {
                            lemma_sorted_unique(a@, b@);
                        }
                    }
                }
                r
            },
            _ => false,
        }
    }

    /// The canonical writing: what goes to the database and to the history.
    /// Reading it back gives the same grid (see `lemma_parse_serialize`).
    pub fn serialize(&self) -> (r: String)
        ensures
            r@ == serialize_text(*self),
    {
        let mut out: Vec<char> = Vec::new();
        push_int(&mut out, self.w);
        out.push('x');
        push_int(&mut out, self.h);
        out.push(':');
        let ghost head = out@;
        match &self.figure {
            Figure::Cells(cells) => {
                out.push('c');
                out.push('=');
                let ghost parts = point_texts(cells@);
                let ghost pre = out@;
                let mut i: usize = 0;
                assert(parts.take(0) =~= Seq::<Seq<char>>::empty());
                assert(out@ =~= pre + join(parts.take(0), ';'));
                while i < cells.len()
                    invariant
                        i <= cells@.len(),
                        parts == point_texts(cells@),
                        out@ == pre + join(parts.take(i as int), ';'),
                    decreases cells@.len() - i,
                {
                    let ghost before = out@;
                    if i > 0 {
                        out.push(';');
                        proof {
                            lemma_join_step(parts, i as int, ';');
                        }
                    } else {
                        assert(parts.take(1) =~= seq![parts[0]]);
                    }
                    push_point(&mut out, &cells[i]);
                    i = i + 1;
                    assert(out@ =~= pre + join(parts.take(i as int), ';'));
                }
                assert(parts.take(cells@.len() as int) == parts);
                assert(out@ =~= serialize_text(*self));
            },
            Figure::Edges(edges) => {
                out.push('e');
                out.push('=');
                let ghost parts = edge_texts(edges@);
                let ghost pre = out@;
                let mut i: usize = 0;
                assert(parts.take(0) =~= Seq::<Seq<char>>::empty());
                assert(out@ =~= pre + join(parts.take(0), ';'));
                while i < edges.len()
                    invariant
                        i <= edges@.len(),
                        parts == edge_texts(edges@),
                        out@ == pre + join(parts.take(i as int), ';'),
                    decreases edges@.len() - i,
                {
                    if i > 0 {
                        out.push(';');
                        proof {
                            lemma_join_step(parts, i as int, ';');
                        }
                    } else {
                        assert(parts.take(1) =~= seq![parts[0]]);
                    }
                    push_edge(&mut out, &edges[i]);
                    i = i + 1;
                    assert(out@ =~= pre + join(parts.take(i as int), ';'));
                }
                assert(parts.take(edges@.len() as int) == parts);
                assert(out@ =~= serialize_text(*self));
            },
        }
        string_of(&out)
    }

    /// A readable summary for the admin panel — « grille 8×8, 12 segments ».
    pub fn describe(&self) -> (r: String)
        requires
            self.wf(),
        ensures
            r@ == describe_text(self@),
    {
        let n: usize = self.marks();
        let what: &str = match self.figure {
            Figure::Cells(_) => if n > 1 {
                "cases"
            } else {
                "case"
            },
            Figure::Edges(_) => if n > 1 {
                "segments"
            } else {
                "segment"
            },
        };
        let mut out: Vec<char> = chars_of("grille ");
        push_size(&mut out, self.w, self.h);
        push_str(&mut out, ", ");
        crate::text::push_nat(&mut out, n as u64);
        push_str(&mut out, " ");
        push_str(&mut out, what);
        string_of(&out)
    }
}

/// What [`Grid::describe`] writes.
pub open spec fn describe_text(g: GridView) -> Seq<char> {
    let n = marks_of(g.figure);
    let what = match g.figure {
        FigureView::Cells(_) => if n > 1 {
            "cases"@
        } else {
            "case"@
        },
        FigureView::Edges(_) => if n > 1 {
            "segments"@
        } else {
            "segment"@
        },
    };
    "grille "@ + size_text(g.w, g.h) + ", "@ + int_text(n as int) + " "@ + what
}

fn same_points(a: &Vec<Point>, b: &Vec<Point>) -> (r: bool)
    ensures
        r == (a@ == b@),
{
    if a.len() != b.len() {
        return false;
    }
    let mut i: usize = 0;
    while i < a.len()
        invariant
            a@.len() == b@.len(),
            i <= a@.len(),
            forall|k: int| 0 <= k < i ==> a@[k] == b@[k],
        decreases a@.len() - i,
    {
        if !a[i].same(&b[i]) {
            return false;
        }
        i = i + 1;
    }
    assert(a@ =~= b@);
    true
}

fn same_edges(a: &Vec<Edge>, b: &Vec<Edge>) -> (r: bool)
    ensures
        r == (a@ == b@),
{
    if a.len() != b.len() {
        return false;
    }
    let mut i: usize = 0;
    while i < a.len()
        invariant
            a@.len() == b@.len(),
            i <= a@.len(),
            forall|k: int| 0 <= k < i ==> a@[k] == b@[k],
        decreases a@.len() - i,
    {
        if !a[i].same(&b[i]) {
            return false;
        }
        i = i + 1;
    }
    assert(a@ =~= b@);
    true
}

/// A read figure has a size within the bounds.
pub proof fn lemma_parsed_size(kind: Seq<char>, raw: Seq<char>)
    ensures
        spec_parse_as(kind, raw) matches Ok(g) ==> MIN_SIDE <= g.w <= MAX_SIDE && MIN_SIDE <= g.h
            <= MAX_SIDE && kind_of(g.figure) == kind,
        spec_parse(raw) matches Ok(g) ==> MIN_SIDE <= g.w <= MAX_SIDE && MIN_SIDE <= g.h
            <= MAX_SIDE,
{
}

/// Two well-formed grids that are the same drawing are written alike: the
/// increasing writing of a set is unique.
pub proof fn lemma_same_writing(a: Grid, b: Grid)
    requires
        a.wf(),
        b.wf(),
        a@ == b@,
    ensures
        serialize_text(a) == serialize_text(b),
        svg_text(a) == svg_text(b),
        svg_blank_text(a) == svg_blank_text(b),
        forall|x: Option<Grid>| #[trigger] svg_review_text(a, x) == svg_review_text(b, x),
        forall|x: Grid| #[trigger] svg_review_text(x, Some(a)) == svg_review_text(x, Some(b)),
{
    match (a.figure, b.figure) {
        (Figure::Cells(x), Figure::Cells(y)) => {
            lemma_sorted_unique(x@, y@);
        },
        (Figure::Edges(x), Figure::Edges(y)) => {
            lemma_sorted_unique(x@, y@);
        },
        (Figure::Cells(x), Figure::Edges(y)) => {
            assert(a@.figure is Cells);
        },
        (Figure::Edges(x), Figure::Cells(y)) => {
            assert(a@.figure is Edges);
        },
    }
}

// ===== Reading back what was written ==========================================

/// The characters a serialized grid is made of.
pub open spec fn plain(c: char) -> bool {
    is_digit(c) || c == ',' || c == ';' || c == '-' || c == ':' || c == '=' || c == 'x' || c
        == 'c' || c == 'e'
}

pub open spec fn all_plain(s: Seq<char>) -> bool {
    forall|i: int| 0 <= i < s.len() ==> plain(#[trigger] s[i])
}

/// Dropping white space and lowercasing leaves a serialized grid unchanged.
proof fn lemma_squash_plain(s: Seq<char>)
    requires
        all_plain(s),
    ensures
        squash_lower(s) == s,
    decreases s.len(),
{
    if s.len() > 0 {
        let c = s.last();
        assert(plain(s[s.len() - 1]));
        assert(all_plain(s.drop_last()));
        lemma_squash_plain(s.drop_last());
        assert(!is_space(c));
        assert((c as u32) < 128);
        assert(ascii_lower(c) == c);
        assert(s.drop_last() + seq![c] =~= s);
    }
}

proof fn lemma_digits_lack(s: Seq<char>, c: char)
    requires
        all_digits(s),
        !is_digit(c),
    ensures
        !s.contains(c),
{
    if s.contains(c) {
        let k = choose|k: int| 0 <= k < s.len() && s[k] == c;
        assert(is_digit(s[k]));
    }
}

pub proof fn lemma_point_text(p: Point)
    requires
        p.0 >= 0,
        p.1 >= 0,
    ensures
        point_text(p) == nat_text(p.0 as nat) + seq![','] + nat_text(p.1 as nat),
        all_plain(point_text(p)),
        !point_text(p).contains(';'),
        !point_text(p).contains('-'),
        point_text(p).len() > 0,
        !nat_text(p.0 as nat).contains(','),
        !nat_text(p.0 as nat).contains('x'),
        !nat_text(p.0 as nat).contains(':'),
{
    lemma_nat_text(p.0 as nat);
    lemma_nat_text(p.1 as nat);
    let t = point_text(p);
    let a = nat_text(p.0 as nat);
    let b = nat_text(p.1 as nat);
    assert forall|i: int| 0 <= i < t.len() implies plain(#[trigger] t[i]) && t[i] != ';' && t[i]
        != '-' by {
        if i < a.len() {
            assert(t[i] == a[i]);
            assert(is_digit(a[i]));
        } else if i > a.len() {
            assert(t[i] == b[i - a.len() - 1]);
            assert(is_digit(b[i - a.len() - 1]));
        }
    }
    lemma_digits_lack(a, ',');
    lemma_digits_lack(a, 'x');
    lemma_digits_lack(a, ':');
}

pub proof fn lemma_edge_text(e: Edge, w: i64, h: i64)
    requires
        is_unit_edge(e, w, h),
    ensures
        all_plain(edge_text(e)),
        !edge_text(e).contains(';'),
        edge_text(e).len() > 0,
{
    lemma_point_text(e.a);
    lemma_point_text(e.b);
    let t = edge_text(e);
    let a = point_text(e.a);
    let b = point_text(e.b);
    assert forall|i: int| 0 <= i < t.len() implies plain(#[trigger] t[i]) && t[i] != ';' by {
        if i < a.len() {
            assert(t[i] == a[i]);
        } else if i > a.len() {
            assert(t[i] == b[i - a.len() - 1]);
        }
    }
}

/// A point written by `point_text` reads back as itself.
proof fn lemma_read_point(p: Point)
    requires
        p.0 >= 0,
        p.1 >= 0,
    ensures
        find_char(point_text(p), ',') == Some(nat_text(p.0 as nat).len() as int),
        point_text(p).take(nat_text(p.0 as nat).len() as int) == nat_text(p.0 as nat),
        point_text(p).skip((nat_text(p.0 as nat).len() + 1) as int) == nat_text(p.1 as nat),
        parse_int(nat_text(p.0 as nat)) == Some(p.0 as int),
        parse_int(nat_text(p.1 as nat)) == Some(p.1 as int),
{
    lemma_point_text(p);
    let a = nat_text(p.0 as nat);
    let b = nat_text(p.1 as nat);
    crate::text::lemma_find_char_after(a, ',', b);
    assert(point_text(p).take(a.len() as int) =~= a);
    assert(point_text(p).skip((a.len() + 1) as int) =~= b);
    lemma_parse_nat_text(p.0 as nat);
    lemma_parse_nat_text(p.1 as nat);
}

pub proof fn lemma_read_cell(p: Point, w: i64, h: i64)
    requires
        in_cells(p, w, h),
    ensures
        spec_parse_cell(point_text(p), w, h) == Ok::<Point, Seq<char>>(p),
{
    lemma_read_point(p);
}

proof fn lemma_read_vertex(p: Point, w: i64, h: i64)
    requires
        in_lattice(p, w, h),
    ensures
        spec_parse_vertex(point_text(p), w, h) == Ok::<Point, Seq<char>>(p),
{
    lemma_read_point(p);
}

/// A unit edge written by `edge_text` reads back as itself alone.
pub proof fn lemma_read_edge(e: Edge, w: i64, h: i64)
    requires
        is_unit_edge(e, w, h),
    ensures
        spec_parse_segment(edge_text(e), w, h) == Ok::<Seq<Edge>, Seq<char>>(seq![e]),
{
    lemma_point_text(e.a);
    let a = point_text(e.a);
    let b = point_text(e.b);
    crate::text::lemma_find_char_after(a, '-', b);
    assert(edge_text(e).take(a.len() as int) =~= a);
    assert(edge_text(e).skip((a.len() + 1) as int) =~= b);
    lemma_read_vertex(e.a, w, h);
    lemma_read_vertex(e.b, w, h);
    let dr = e.b.0 - e.a.0;
    let dc = e.b.1 - e.a.1;
    assert(walk(e.a, 0, sign(dr), sign(dc)) == e.a);
    assert(walk(e.a, 1, sign(dr), sign(dc)) == e.b);
    assert(segment_edges(e.a, e.b) =~= seq![e]);
}

/// Pieces that hold no separator are what splitting their join gives back.
proof fn lemma_split_join(parts: Seq<Seq<char>>, sep: char)
    requires
        parts.len() >= 1,
        forall|i: int| 0 <= i < parts.len() ==> !(#[trigger] parts[i]).contains(sep),
    ensures
        split_on(join(parts, sep), sep) == parts,
    decreases parts.len(),
{
    if parts.len() == 1 {
        crate::text::lemma_split_on_append(Seq::empty(), parts[0], sep);
        assert(Seq::<char>::empty() + parts[0] =~= parts[0]);
        assert(split_on(Seq::<char>::empty(), sep) =~= seq![Seq::<char>::empty()]);
        assert(split_on(parts[0], sep) =~= parts);
    } else {
        let pre = parts.drop_last();
        assert forall|i: int| 0 <= i < pre.len() implies !(#[trigger] pre[i]).contains(sep) by {
            assert(pre[i] == parts[i]);
        }
        lemma_split_join(pre, sep);
        let j = join(pre, sep);
        crate::text::lemma_split_on_sep(j, sep);
        assert(!parts.last().contains(sep)) by {
            assert(parts[parts.len() - 1] == parts.last());
        }
        crate::text::lemma_split_on_append(j + seq![sep], parts.last(), sep);
        assert(join(parts, sep) == j + seq![sep] + parts.last());
        assert(Seq::<char>::empty() + parts.last() =~= parts.last());
        assert(split_on(join(parts, sep), sep) =~= parts);
    }
}

proof fn lemma_cells_back(v: Seq<Point>, w: i64, h: i64)
    requires
        cells_wf(v, w, h),
    ensures
        spec_cells(split_on(join(point_texts(v), ';'), ';'), w, h) == Ok::<
            Set<Point>,
            Seq<char>,
        >(v.to_set()),
{
    let parts = point_texts(v);
    if v.len() == 0 {
        assert(join(parts, ';') =~= Seq::<char>::empty());
        assert(split_on(Seq::<char>::empty(), ';') =~= seq![Seq::<char>::empty()]);
        let ts = seq![Seq::<char>::empty()];
        assert(ts.drop_last() =~= Seq::<Seq<char>>::empty());
        assert(spec_cells(ts.drop_last(), w, h) == Ok::<Set<Point>, Seq<char>>(Set::empty()));
        assert(ts.last().len() == 0);
        assert(v.to_set() =~= Set::<Point>::empty());
    } else {
        assert forall|i: int| 0 <= i < parts.len() implies !(#[trigger] parts[i]).contains(';')
            by {
            lemma_point_text(v[i]);
        }
        lemma_split_join(parts, ';');
        lemma_cells_prefix(v, v.len() as int, w, h);
        assert(parts.take(v.len() as int) == parts);
        assert(v.take(v.len() as int) == v);
    }
}

proof fn lemma_cells_prefix(v: Seq<Point>, k: int, w: i64, h: i64)
    requires
        cells_wf(v, w, h),
        0 <= k <= v.len(),
    ensures
        spec_cells(point_texts(v).take(k), w, h) == Ok::<
            Set<Point>,
            Seq<char>,
        >(v.take(k).to_set()),
    decreases k,
{
    let parts = point_texts(v);
    if k == 0 {
        assert(parts.take(0) =~= Seq::<Seq<char>>::empty());
        assert(v.take(0).to_set() =~= Set::<Point>::empty());
    } else {
        let j = k - 1;
        lemma_cells_prefix(v, j, w, h);
        assert(parts.take(j + 1).drop_last() == parts.take(j));
        assert(parts.take(j + 1).last() == point_text(v[j]));
        lemma_point_text(v[j]);
        lemma_read_cell(v[j], w, h);
        assert(v.take(j + 1) =~= v.take(j).push(v[j]));
        lemma_push_to_set(v.take(j), v[j]);
    }
}

proof fn lemma_edges_back(v: Seq<Edge>, w: i64, h: i64)
    requires
        edges_wf(v, w, h),
    ensures
        spec_edges(split_on(join(edge_texts(v), ';'), ';'), w, h) == Ok::<
            Set<Edge>,
            Seq<char>,
        >(v.to_set()),
{
    let parts = edge_texts(v);
    if v.len() == 0 {
        assert(join(parts, ';') =~= Seq::<char>::empty());
        assert(split_on(Seq::<char>::empty(), ';') =~= seq![Seq::<char>::empty()]);
        let ts = seq![Seq::<char>::empty()];
        assert(ts.drop_last() =~= Seq::<Seq<char>>::empty());
        assert(spec_edges(ts.drop_last(), w, h) == Ok::<Set<Edge>, Seq<char>>(Set::empty()));
        assert(ts.last().len() == 0);
        assert(v.to_set() =~= Set::<Edge>::empty());
    } else {
        assert forall|i: int| 0 <= i < parts.len() implies !(#[trigger] parts[i]).contains(';')
            by {
            lemma_edge_text(v[i], w, h);
        }
        lemma_split_join(parts, ';');
        lemma_edges_prefix(v, v.len() as int, w, h);
        assert(parts.take(v.len() as int) == parts);
        assert(v.take(v.len() as int) == v);
    }
}

proof fn lemma_edges_prefix(v: Seq<Edge>, k: int, w: i64, h: i64)
    requires
        edges_wf(v, w, h),
        0 <= k <= v.len(),
    ensures
        spec_edges(edge_texts(v).take(k), w, h) == Ok::<
            Set<Edge>,
            Seq<char>,
        >(v.take(k).to_set()),
    decreases k,
{
    let parts = edge_texts(v);
    if k == 0 {
        assert(parts.take(0) =~= Seq::<Seq<char>>::empty());
        assert(v.take(0).to_set() =~= Set::<Edge>::empty());
    } else {
        let j = k - 1;
        lemma_edges_prefix(v, j, w, h);
        assert(parts.take(j + 1).drop_last() == parts.take(j));
        assert(parts.take(j + 1).last() == edge_text(v[j]));
        lemma_edge_text(v[j], w, h);
        lemma_read_edge(v[j], w, h);
        assert(v.take(j + 1) =~= v.take(j).push(v[j]));
        lemma_push_to_set(v.take(j), v[j]);
        assert(seq![v[j]].to_set() =~= set![v[j]]) by {
            lemma_push_to_set(Seq::<Edge>::empty(), v[j]);
            assert(Seq::<Edge>::empty().push(v[j]) =~= seq![v[j]]);
            assert(Seq::<Edge>::empty().to_set() =~= Set::<Edge>::empty());
        }
        assert(v.take(j).to_set().union(seq![v[j]].to_set()) =~= v.take(j).to_set().insert(v[j]));
    }
}

pub open spec fn ser_dims(g: Grid) -> Seq<char> {
    int_text(g.w as int) + seq!['x'] + int_text(g.h as int)
}

pub open spec fn ser_body(g: Grid) -> Seq<char> {
    match g.figure {
        Figure::Cells(v) => join(point_texts(v@), ';'),
        Figure::Edges(v) => join(edge_texts(v@), ';'),
    }
}

pub open spec fn ser_marker(g: Grid) -> char {
    match g.figure {
        Figure::Cells(_) => 'c',
        Figure::Edges(_) => 'e',
    }
}

proof fn lemma_body_plain(g: Grid)
    requires
        g.wf(),
    ensures
        all_plain(ser_body(g)),
{
    match g.figure {
        Figure::Cells(v) => {
            let parts = point_texts(v@);
            assert forall|i: int| 0 <= i < parts.len() implies all_plain(#[trigger] parts[i]) by {
                lemma_point_text(v@[i]);
            }
            lemma_join_plain(parts);
        },
        Figure::Edges(v) => {
            let parts = edge_texts(v@);
            assert forall|i: int| 0 <= i < parts.len() implies all_plain(#[trigger] parts[i]) by {
                lemma_edge_text(v@[i], g.w, g.h);
            }
            lemma_join_plain(parts);
        },
    }
}

proof fn lemma_serialized_shape(g: Grid)
    requires
        g.wf(),
        g.w >= 0,
        g.h >= 0,
    ensures
        serialize_text(g) == ser_dims(g) + seq![':'] + (seq![ser_marker(g), '='] + ser_body(g)),
        all_plain(serialize_text(g)),
        !ser_dims(g).contains(':'),
{
    let wt = nat_text(g.w as nat);
    let ht = nat_text(g.h as nat);
    lemma_nat_text(g.w as nat);
    lemma_nat_text(g.h as nat);
    let dims = ser_dims(g);
    let body = ser_body(g);
    let text = serialize_text(g);
    assert(text =~= dims + seq![':'] + (seq![ser_marker(g), '='] + body));
    lemma_body_plain(g);
    assert forall|i: int| 0 <= i < text.len() implies plain(#[trigger] text[i]) by {
        if i < wt.len() {
            assert(text[i] == wt[i]);
            assert(is_digit(wt[i]));
        } else if wt.len() < i < dims.len() {
            assert(text[i] == ht[i - wt.len() - 1]);
            assert(is_digit(ht[i - wt.len() - 1]));
        } else if i > dims.len() + 2 {
            assert(text[i] == body[i - dims.len() - 3]);
        }
    }
    assert(!dims.contains(':')) by {
        if dims.contains(':') {
            let k = choose|k: int| 0 <= k < dims.len() && dims[k] == ':';
            if k < wt.len() {
                assert(is_digit(wt[k]));
            } else if k > wt.len() {
                assert(is_digit(ht[k - wt.len() - 1]));
            }
        }
    }
}

proof fn lemma_read_dims(g: Grid)
    requires
        g.w >= 0,
        g.h >= 0,
    ensures
        find_char(ser_dims(g), 'x') == Some(int_text(g.w as int).len() as int),
        ser_dims(g).take(int_text(g.w as int).len() as int) == int_text(g.w as int),
        ser_dims(g).skip((int_text(g.w as int).len() + 1) as int) == int_text(g.h as int),
        parse_int(int_text(g.w as int)) == Some(g.w as int),
        parse_int(int_text(g.h as int)) == Some(g.h as int),
{
    lemma_point_text((g.w, g.h));
    lemma_read_point((g.w, g.h));
    let wt = nat_text(g.w as nat);
    let ht = nat_text(g.h as nat);
    crate::text::lemma_find_char_after(wt, 'x', ht);
    assert(ser_dims(g).take(wt.len() as int) =~= wt);
    assert(ser_dims(g).skip((wt.len() + 1) as int) =~= ht);
}

proof fn lemma_read_rest(g: Grid)
    requires
        g.wf(),
    ensures
        spec_parse_figure(seq![ser_marker(g), '='] + ser_body(g), g.w, g.h) == Ok::<
            GridView,
            Seq<char>,
        >(g@),
{
    let m = ser_marker(g);
    let body = ser_body(g);
    let rest = seq![m, '='] + body;
    crate::text::lemma_find_char_after(seq![m], '=', body);
    assert(rest =~= seq![m] + seq!['='] + body);
    assert(rest.take(1) =~= seq![m]);
    assert(rest.skip(2) =~= body);
    match g.figure {
        Figure::Cells(v) => {
            lemma_cells_back(v@, g.w, g.h);
        },
        Figure::Edges(v) => {
            lemma_edges_back(v@, g.w, g.h);
        },
    }
}

/// Reading back what [`Grid::serialize`] wrote gives the same grid:
/// `parse(serialize(g)) == g`, for every grid whose size `parse` accepts.
pub proof fn lemma_parse_serialize(g: Grid)
    requires
        g.wf(),
        MIN_SIDE <= g.w <= MAX_SIDE,
        MIN_SIDE <= g.h <= MAX_SIDE,
    ensures
        spec_parse(serialize_text(g)) == Ok::<GridView, Seq<char>>(g@),
{
    let text = serialize_text(g);
    let dims = ser_dims(g);
    let rest = seq![ser_marker(g), '='] + ser_body(g);
    lemma_serialized_shape(g);
    lemma_squash_plain(text);
    crate::text::lemma_find_char_after(dims, ':', rest);
    assert(text.take(dims.len() as int) =~= dims);
    assert(text.skip((dims.len() + 1) as int) =~= rest);
    lemma_read_dims(g);
    lemma_read_rest(g);
}

proof fn lemma_join_plain(parts: Seq<Seq<char>>)
    requires
        forall|i: int| 0 <= i < parts.len() ==> all_plain(#[trigger] parts[i]),
    ensures
        all_plain(join(parts, ';')),
    decreases parts.len(),
{
    if parts.len() == 1 {
        assert(all_plain(parts[0]));
    } else if parts.len() > 1 {
        let pre = parts.drop_last();
        assert forall|i: int| 0 <= i < pre.len() implies all_plain(#[trigger] pre[i]) by {
            assert(pre[i] == parts[i]);
        }
        lemma_join_plain(pre);
        let a = join(pre, ';');
        let b = parts.last();
        assert(all_plain(parts[parts.len() - 1]));
        let t = join(parts, ';');
        assert forall|i: int| 0 <= i < t.len() implies plain(#[trigger] t[i]) by {
            if i < a.len() {
                assert(t[i] == a[i]);
            } else if i > a.len() {
                assert(t[i] == b[i - a.len() - 1]);
            }
        }
    }
}

// ===== SVG rendering ==========================================================
//
// Presentation attributes are written in place rather than as CSS classes: the
// same figure shows alike in the quiz, the correction page and the admin panel.

/// SVG units per cell.
pub const U: i64 = 10;

/// Margin around the lattice, in units.
pub const MARGIN: i64 = 2;

pub const C_GRID: &'static str = "#e2dccf";

pub const C_DOT: &'static str = "#cfc6b4";

pub const C_INK: &'static str = "#243049";

pub const C_OK: &'static str = "#2fae66";

pub const C_EXTRA: &'static str = "#e07a5f";

pub const C_MISS: &'static str = "#aab2c4";

/// The pieces written one after the other.
pub open spec fn concat(parts: Seq<Seq<char>>) -> Seq<char>
    decreases parts.len(),
{
    if parts.len() == 0 {
        Seq::empty()
    } else {
        concat(parts.drop_last()) + parts.last()
    }
}

/// How many times `0..n` runs.
pub open spec fn count(n: int) -> nat {
    if n < 0 {
        0
    } else {
        n as nat
    }
}

/// The sizes whose drawing coordinates fit in an `i64`.
pub open spec fn drawable(w: i64, h: i64) -> bool {
    i64::MIN <= w * 10 && w * 10 + 4 <= i64::MAX && i64::MIN <= h * 10 && h * 10 + 4 <= i64::MAX
}

pub open spec fn svg_open_text(w: i64, h: i64, label: Seq<char>) -> Seq<char> {
    "<svg class=\"g-svg\" viewBox=\"-2 -2 "@ + int_text(w * 10 + 4) + " "@ + int_text(h * 10 + 4)
        + "\" xmlns=\"http://www.w3.org/2000/svg\" role=\"img\" aria-label=\""@ + label + "\">"@
}

pub open spec fn hline_text(y: int, right: int) -> Seq<char> {
    "<line x1=\"0\" y1=\""@ + int_text(y) + "\" x2=\""@ + int_text(right) + "\" y2=\""@
        + int_text(y) + "\" stroke=\"#e2dccf\" stroke-width=\".7\"/>"@
}

pub open spec fn vline_text(x: int, bottom: int) -> Seq<char> {
    "<line x1=\""@ + int_text(x) + "\" y1=\"0\" x2=\""@ + int_text(x) + "\" y2=\""@ + int_text(
        bottom,
    ) + "\" stroke=\"#e2dccf\" stroke-width=\".7\"/>"@
}

pub open spec fn dot_text(x: int, y: int) -> Seq<char> {
    "<circle cx=\""@ + int_text(x) + "\" cy=\""@ + int_text(y) + "\" r=\".9\" fill=\"#cfc6b4\"/>"@
}

pub open spec fn dot_row_text(r: int, w: i64) -> Seq<char> {
    concat(Seq::new(count(w + 1), |c: int| dot_text(c * 10, r * 10)))
}

/// The lattice: its horizontal and vertical lines, then, for segments, its points.
pub open spec fn lattice_text(w: i64, h: i64, dots: bool) -> Seq<char> {
    concat(Seq::new(count(h + 1), |r: int| hline_text(r * 10, w * 10))) + concat(
        Seq::new(count(w + 1), |c: int| vline_text(c * 10, h * 10)),
    ) + if dots {
        concat(Seq::new(count(h + 1), |r: int| dot_row_text(r, w)))
    } else {
        Seq::empty()
    }
}

pub open spec fn cell_mark_text(p: Point, color: Seq<char>, dashed: bool) -> Seq<char> {
    if dashed {
        "<rect x=\""@ + int_text(p.1 * 10 + 1) + "\" y=\""@ + int_text(p.0 * 10 + 1)
            + "\" width=\"8\" height=\"8\" rx=\"1\" fill=\"none\" stroke=\""@ + color
            + "\" stroke-width=\"1\" stroke-dasharray=\"2 2\"/>"@
    } else {
        "<rect x=\""@ + int_text(p.1 * 10) + "\" y=\""@ + int_text(p.0 * 10)
            + "\" width=\"10\" height=\"10\" rx=\"1.2\" fill=\""@ + color + "\"/>"@
    }
}

pub open spec fn edge_mark_text(e: Edge, color: Seq<char>, dashed: bool) -> Seq<char> {
    "<line x1=\""@ + int_text(e.a.1 * 10) + "\" y1=\""@ + int_text(e.a.0 * 10) + "\" x2=\""@
        + int_text(e.b.1 * 10) + "\" y2=\""@ + int_text(e.b.0 * 10) + "\" stroke=\""@ + color
        + "\" stroke-width=\""@ + (if dashed {
        "1.8"@
    } else {
        "2.4"@
    }) + "\" stroke-linecap=\"round\""@ + (if dashed {
        " stroke-dasharray=\"2.4 2.4\""@
    } else {
        ""@
    }) + "/>"@
}

pub open spec fn cells_text(s: Seq<Point>, color: Seq<char>, dashed: bool) -> Seq<char> {
    concat(s.map_values(|p: Point| cell_mark_text(p, color, dashed)))
}

pub open spec fn edges_text(s: Seq<Edge>, color: Seq<char>, dashed: bool) -> Seq<char> {
    concat(s.map_values(|e: Edge| edge_mark_text(e, color, dashed)))
}

pub open spec fn is_edges(g: Grid) -> bool {
    g.figure is Edges
}

/// What [`Grid::svg`] writes: the model as it is.
pub open spec fn svg_text(g: Grid) -> Seq<char> {
    svg_open_text(g.w, g.h, "Modèle à reproduire"@) + lattice_text(g.w, g.h, is_edges(g))
        + match g.figure {
        Figure::Cells(v) => cells_text(v@, C_INK@, false),
        Figure::Edges(v) => edges_text(v@, C_INK@, false),
    } + "</svg>"@
}

/// What [`Grid::svg_blank`] writes: the lattice alone.
pub open spec fn svg_blank_text(g: Grid) -> Seq<char> {
    svg_open_text(g.w, g.h, "Grille vierge"@) + lattice_text(g.w, g.h, is_edges(g)) + "</svg>"@
}

/// The three-colour correction: missed (dashed grey), extra (red), right (green).
pub open spec fn review_marks_text(model: Figure, given: Option<Grid>) -> Seq<char> {
    match (model, given) {
        (Figure::Cells(m), Some(Grid { figure: Figure::Cells(d), .. })) => cells_text(
            select(m@, d@, false),
            C_MISS@,
            true,
        ) + cells_text(select(d@, m@, false), C_EXTRA@, false) + cells_text(
            select(m@, d@, true),
            C_OK@,
            false,
        ),
        (Figure::Edges(m), Some(Grid { figure: Figure::Edges(d), .. })) => edges_text(
            select(m@, d@, false),
            C_MISS@,
            true,
        ) + edges_text(select(d@, m@, false), C_EXTRA@, false) + edges_text(
            select(m@, d@, true),
            C_OK@,
            false,
        ),
        (Figure::Cells(m), _) => cells_text(m@, C_MISS@, true),
        (Figure::Edges(m), _) => edges_text(m@, C_MISS@, true),
    }
}

/// What [`Grid::svg_review`] writes.
pub open spec fn svg_review_text(g: Grid, given: Option<Grid>) -> Seq<char> {
    svg_open_text(g.w, g.h, "Ton dessin comparé au modèle"@) + lattice_text(g.w, g.h, is_edges(g))
        + review_marks_text(g.figure, given) + "</svg>"@
}

fn push_svg_open(out: &mut Vec<char>, w: i64, h: i64, label: &str)
    requires
        drawable(w, h),
    ensures
        final(out)@ == old(out)@ + svg_open_text(w, h, label@),
{
    let ghost start = out@;
    push_str(out, "<svg class=\"g-svg\" viewBox=\"-2 -2 ");
    push_int(out, w * U + 2 * MARGIN);
    push_str(out, " ");
    push_int(out, h * U + 2 * MARGIN);
    push_str(out, "\" xmlns=\"http://www.w3.org/2000/svg\" role=\"img\" aria-label=\"");
    push_str(out, label);
    push_str(out, "\">");
    assert(out@ =~= start + svg_open_text(w, h, label@));
}

proof fn lemma_concat_push(parts: Seq<Seq<char>>, x: Seq<char>)
    ensures
        concat(parts.push(x)) == concat(parts) + x,
{
    assert(parts.push(x).drop_last() =~= parts);
}

fn push_lattice(out: &mut Vec<char>, w: i64, h: i64, dots: bool)
    requires
        drawable(w, h),
    ensures
        final(out)@ == old(out)@ + lattice_text(w, h, dots),
{
    let ghost start = out@;
    let ghost hl = Seq::new(count(h + 1), |r: int| hline_text(r * 10, w * 10));
    let ghost vl = Seq::new(count(w + 1), |c: int| vline_text(c * 10, h * 10));
    let ghost dl = Seq::new(count(h + 1), |r: int| dot_row_text(r, w));
    let right: i64 = w * U;
    let bottom: i64 = h * U;
    let mut r: i64 = 0;
    assert(hl.take(0) =~= Seq::<Seq<char>>::empty());
    while r <= h
        invariant
            drawable(w, h),
            0 <= r,
            r <= count(h + 1),
            right == w * 10,
            hl == Seq::new(count(h + 1), |r: int| hline_text(r * 10, w * 10)),
            out@ == start + concat(hl.take(r as int)),
        decreases h - r + 1,
    {
        let ghost before = out@;
        push_str(out, "<line x1=\"0\" y1=\"");
        push_int(out, r * U);
        push_str(out, "\" x2=\"");
        push_int(out, right);
        push_str(out, "\" y2=\"");
        push_int(out, r * U);
        push_str(out, "\" stroke=\"#e2dccf\" stroke-width=\".7\"/>");
        assert(out@ =~= before + hline_text(r * 10, w * 10));
        assert(hl.take(r + 1) =~= hl.take(r as int).push(hl[r as int]));
        proof {
            lemma_concat_push(hl.take(r as int), hl[r as int]);
        }
        r = r + 1;
    }
    assert(hl.take(r as int) =~= hl);
    let ghost mid = out@;
    let mut c: i64 = 0;
    assert(vl.take(0) =~= Seq::<Seq<char>>::empty());
    while c <= w
        invariant
            drawable(w, h),
            0 <= c,
            c <= count(w + 1),
            bottom == h * 10,
            vl == Seq::new(count(w + 1), |c: int| vline_text(c * 10, h * 10)),
            out@ == mid + concat(vl.take(c as int)),
        decreases w - c + 1,
    {
        let ghost before = out@;
        push_str(out, "<line x1=\"");
        push_int(out, c * U);
        push_str(out, "\" y1=\"0\" x2=\"");
        push_int(out, c * U);
        push_str(out, "\" y2=\"");
        push_int(out, bottom);
        push_str(out, "\" stroke=\"#e2dccf\" stroke-width=\".7\"/>");
        assert(out@ =~= before + vline_text(c * 10, h * 10));
        assert(vl.take(c + 1) =~= vl.take(c as int).push(vl[c as int]));
        proof {
            lemma_concat_push(vl.take(c as int), vl[c as int]);
        }
        c = c + 1;
    }
    assert(vl.take(c as int) =~= vl);
    let ghost mid2 = out@;
    if dots {
        let mut r: i64 = 0;
        assert(dl.take(0) =~= Seq::<Seq<char>>::empty());
        while r <= h
            invariant
                drawable(w, h),
                0 <= r,
                r <= count(h + 1),
                dl == Seq::new(count(h + 1), |r: int| dot_row_text(r, w)),
                out@ == mid2 + concat(dl.take(r as int)),
            decreases h - r + 1,
        {
            let ghost before = out@;
            let ghost row = Seq::new(count(w + 1), |c: int| dot_text(c * 10, r * 10));
            let mut c: i64 = 0;
            assert(row.take(0) =~= Seq::<Seq<char>>::empty());
            while c <= w
                invariant
                    drawable(w, h),
                    0 <= r <= h,
                    0 <= c,
                    c <= count(w + 1),
                    row == Seq::new(count(w + 1), |c: int| dot_text(c * 10, r * 10)),
                    out@ == before + concat(row.take(c as int)),
                decreases w - c + 1,
            {
                let ghost b2 = out@;
                push_str(out, "<circle cx=\"");
                push_int(out, c * U);
                push_str(out, "\" cy=\"");
                push_int(out, r * U);
                push_str(out, "\" r=\".9\" fill=\"#cfc6b4\"/>");
                assert(out@ =~= b2 + dot_text(c * 10, r * 10));
                assert(row.take(c + 1) =~= row.take(c as int).push(row[c as int]));
                proof {
                    lemma_concat_push(row.take(c as int), row[c as int]);
                }
                c = c + 1;
            }
            assert(row.take(c as int) =~= row);
            assert(dl[r as int] == concat(row));
            assert(dl.take(r + 1) =~= dl.take(r as int).push(dl[r as int]));
            proof {
                lemma_concat_push(dl.take(r as int), dl[r as int]);
            }
            r = r + 1;
        }
        assert(dl.take(r as int) =~= dl);
    }
    assert(out@ =~= start + lattice_text(w, h, dots));
}

fn push_cell_mark(out: &mut Vec<char>, p: &Point, color: &str, dashed: bool, w: i64, h: i64)
    requires
        drawable(w, h),
        in_cells(*p, w, h),
    ensures
        final(out)@ == old(out)@ + cell_mark_text(*p, color@, dashed),
{
    let ghost start = out@;
    let x: i64 = p.1 * U;
    let y: i64 = p.0 * U;
    if dashed {
        push_str(out, "<rect x=\"");
        push_int(out, x + 1);
        push_str(out, "\" y=\"");
        push_int(out, y + 1);
        push_str(out, "\" width=\"8\" height=\"8\" rx=\"1\" fill=\"none\" stroke=\"");
        push_str(out, color);
        push_str(out, "\" stroke-width=\"1\" stroke-dasharray=\"2 2\"/>");
    } else {
        push_str(out, "<rect x=\"");
        push_int(out, x);
        push_str(out, "\" y=\"");
        push_int(out, y);
        push_str(out, "\" width=\"10\" height=\"10\" rx=\"1.2\" fill=\"");
        push_str(out, color);
        push_str(out, "\"/>");
    }
    assert(out@ =~= start + cell_mark_text(*p, color@, dashed));
}

fn push_edge_mark(out: &mut Vec<char>, e: &Edge, color: &str, dashed: bool, w: i64, h: i64)
    requires
        drawable(w, h),
        is_unit_edge(*e, w, h),
    ensures
        final(out)@ == old(out)@ + edge_mark_text(*e, color@, dashed),
{
    let ghost start = out@;
    push_str(out, "<line x1=\"");
    push_int(out, e.a.1 * U);
    push_str(out, "\" y1=\"");
    push_int(out, e.a.0 * U);
    push_str(out, "\" x2=\"");
    push_int(out, e.b.1 * U);
    push_str(out, "\" y2=\"");
    push_int(out, e.b.0 * U);
    push_str(out, "\" stroke=\"");
    push_str(out, color);
    push_str(out, "\" stroke-width=\"");
    let ghost mid = out@;
    if dashed {
        push_str(out, "1.8");
    } else {
        push_str(out, "2.4");
    }
    push_str(out, "\" stroke-linecap=\"round\"");
    if dashed {
        push_str(out, " stroke-dasharray=\"2.4 2.4\"");
    } else {
        push_str(out, "");
    }
    push_str(out, "/>");
    assert(out@ =~= start + edge_mark_text(*e, color@, dashed));
}

fn push_cells(out: &mut Vec<char>, cells: &[Point], color: &str, dashed: bool, w: i64, h: i64)
    requires
        drawable(w, h),
        forall|i: int| 0 <= i < cells@.len() ==> in_cells(#[trigger] cells@[i], w, h),
    ensures
        final(out)@ == old(out)@ + cells_text(cells@, color@, dashed),
{
    let ghost start = out@;
    let ghost parts = cells@.map_values(|p: Point| cell_mark_text(p, color@, dashed));
    let mut i: usize = 0;
    assert(parts.take(0) =~= Seq::<Seq<char>>::empty());
    while i < cells.len()
        invariant
            drawable(w, h),
            forall|i: int| 0 <= i < cells@.len() ==> in_cells(#[trigger] cells@[i], w, h),
            i <= cells@.len(),
            parts == cells@.map_values(|p: Point| cell_mark_text(p, color@, dashed)),
            out@ == start + concat(parts.take(i as int)),
        decreases cells@.len() - i,
    {
        let p: Point = cells[i];
        assert(in_cells(cells@[i as int], w, h));
        let ghost before = out@;
        push_cell_mark(out, &p, color, dashed, w, h);
        assert(out@ =~= before + cell_mark_text(p, color@, dashed));
        assert(parts.take(i + 1) =~= parts.take(i as int).push(parts[i as int]));
        proof {
            lemma_concat_push(parts.take(i as int), parts[i as int]);
        }
        i = i + 1;
    }
    assert(parts.take(i as int) =~= parts);
}

fn push_edges(out: &mut Vec<char>, edges: &[Edge], color: &str, dashed: bool, w: i64, h: i64)
    requires
        drawable(w, h),
        forall|i: int| 0 <= i < edges@.len() ==> is_unit_edge(#[trigger] edges@[i], w, h),
    ensures
        final(out)@ == old(out)@ + edges_text(edges@, color@, dashed),
{
    let ghost start = out@;
    let ghost parts = edges@.map_values(|e: Edge| edge_mark_text(e, color@, dashed));
    let mut i: usize = 0;
    assert(parts.take(0) =~= Seq::<Seq<char>>::empty());
    while i < edges.len()
        invariant
            drawable(w, h),
            forall|i: int| 0 <= i < edges@.len() ==> is_unit_edge(#[trigger] edges@[i], w, h),
            i <= edges@.len(),
            parts == edges@.map_values(|e: Edge| edge_mark_text(e, color@, dashed)),
            out@ == start + concat(parts.take(i as int)),
        decreases edges@.len() - i,
    {
        let e: Edge = edges[i];
        assert(is_unit_edge(edges@[i as int], w, h));
        let ghost before = out@;
        push_edge_mark(out, &e, color, dashed, w, h);
        assert(out@ =~= before + edge_mark_text(e, color@, dashed));
        assert(parts.take(i + 1) =~= parts.take(i as int).push(parts[i as int]));
        proof {
            lemma_concat_push(parts.take(i as int), parts[i as int]);
        }
        i = i + 1;
    }
    assert(parts.take(i as int) =~= parts);
}

proof fn lemma_select_sub<T>(a: Seq<T>, b: Seq<T>, keep: bool)
    ensures
        forall|i: int|
            0 <= i < select(a, b, keep).len() ==> a.contains(#[trigger] select(a, b, keep)[i]),
    decreases a.len(),
{
    if a.len() > 0 {
        let a1 = a.drop_last();
        lemma_select_sub(a1, b, keep);
        let r = select(a1, b, keep);
        assert forall|i: int| 0 <= i < select(a, b, keep).len() implies a.contains(
            #[trigger] select(a, b, keep)[i],
        ) by {
            if i < r.len() {
                assert(select(a, b, keep)[i] == r[i]);
                let k = choose|k: int| 0 <= k < a1.len() && a1[k] == r[i];
                assert(a[k] == r[i]);
            } else {
                assert(select(a, b, keep)[i] == a.last());
                assert(a[a.len() - 1] == a.last());
            }
        }
    }
}

proof fn lemma_select_cells(a: Seq<Point>, b: Seq<Point>, keep: bool, w: i64, h: i64)
    requires
        forall|i: int| 0 <= i < a.len() ==> in_cells(#[trigger] a[i], w, h),
    ensures
        forall|i: int|
            0 <= i < select(a, b, keep).len() ==> in_cells(#[trigger] select(a, b, keep)[i], w, h),
{
    lemma_select_sub(a, b, keep);
    assert forall|i: int| 0 <= i < select(a, b, keep).len() implies in_cells(
        #[trigger] select(a, b, keep)[i],
        w,
        h,
    ) by {
        assert(a.contains(select(a, b, keep)[i]));
        let k = choose|k: int| 0 <= k < a.len() && a[k] == select(a, b, keep)[i];
        assert(in_cells(a[k], w, h));
    }
}

proof fn lemma_select_edges(a: Seq<Edge>, b: Seq<Edge>, keep: bool, w: i64, h: i64)
    requires
        forall|i: int| 0 <= i < a.len() ==> is_unit_edge(#[trigger] a[i], w, h),
    ensures
        forall|i: int|
            0 <= i < select(a, b, keep).len() ==> is_unit_edge(
                #[trigger] select(a, b, keep)[i],
                w,
                h,
            ),
{
    lemma_select_sub(a, b, keep);
    assert forall|i: int| 0 <= i < select(a, b, keep).len() implies is_unit_edge(
        #[trigger] select(a, b, keep)[i],
        w,
        h,
    ) by {
        assert(a.contains(select(a, b, keep)[i]));
        let k = choose|k: int| 0 <= k < a.len() && a[k] == select(a, b, keep)[i];
        assert(is_unit_edge(a[k], w, h));
    }
}

fn push_review_marks(out: &mut Vec<char>, g: &Grid, given: Option<&Grid>)
    requires
        g.wf(),
        drawable(g.w, g.h),
        given matches Some(d) ==> d.wf() && d.w == g.w && d.h == g.h,
    ensures
        final(out)@ == old(out)@ + review_marks_text(
            g.figure,
            match given {
                Some(d) => Some(*d),
                None => None,
            },
        ),
{
    let ghost start = out@;
    let w: i64 = g.w;
    let h: i64 = g.h;
    match (&g.figure, given) {
        (Figure::Cells(model), Some(Grid { figure: Figure::Cells(drawn), .. })) => {
            let miss: Vec<Point> = crate::sorted::select_keys(model, drawn, false);
            let extra: Vec<Point> = crate::sorted::select_keys(drawn, model, false);
            let ok: Vec<Point> = crate::sorted::select_keys(model, drawn, true);
            proof {
                lemma_select_cells(model@, drawn@, false, w, h);
                lemma_select_cells(drawn@, model@, false, w, h);
                lemma_select_cells(model@, drawn@, true, w, h);
            }
            push_cells(out, &miss, C_MISS, true, w, h);
            push_cells(out, &extra, C_EXTRA, false, w, h);
            push_cells(out, &ok, C_OK, false, w, h);
        },
        (Figure::Edges(model), Some(Grid { figure: Figure::Edges(drawn), .. })) => {
            let miss: Vec<Edge> = crate::sorted::select_keys(model, drawn, false);
            let extra: Vec<Edge> = crate::sorted::select_keys(drawn, model, false);
            let ok: Vec<Edge> = crate::sorted::select_keys(model, drawn, true);
            proof {
                lemma_select_edges(model@, drawn@, false, w, h);
                lemma_select_edges(drawn@, model@, false, w, h);
                lemma_select_edges(model@, drawn@, true, w, h);
            }
            push_edges(out, &miss, C_MISS, true, w, h);
            push_edges(out, &extra, C_EXTRA, false, w, h);
            push_edges(out, &ok, C_OK, false, w, h);
        },
        (Figure::Cells(model), _) => {
            push_cells(out, model, C_MISS, true, w, h);
        },
        (Figure::Edges(model), _) => {
            push_edges(out, model, C_MISS, true, w, h);
        },
    }
    assert(out@ =~= start + review_marks_text(
        g.figure,
        match given {
            Some(d) => Some(*d),
            None => None,
        },
    ));
}

impl Grid {
    /// The figure as it is: the model to copy.
    pub fn svg(&self) -> (r: String)
        requires
            self.wf(),
            drawable(self.w, self.h),
        ensures
            r@ == svg_text(*self),
    {
        let mut out: Vec<char> = Vec::new();
        push_svg_open(&mut out, self.w, self.h, "Modèle à reproduire");
        let dots: bool = match self.figure {
            Figure::Cells(_) => false,
            Figure::Edges(_) => true,
        };
        push_lattice(&mut out, self.w, self.h, dots);
        match &self.figure {
            Figure::Cells(cells) => push_cells(&mut out, cells, C_INK, false, self.w, self.h),
            Figure::Edges(edges) => push_edges(&mut out, edges, C_INK, false, self.w, self.h),
        }
        push_str(&mut out, "</svg>");
        assert(out@ =~= svg_text(*self));
        string_of(&out)
    }

    /// The background of the editor: the lattice alone, without a mark.
    pub fn svg_blank(&self) -> (r: String)
        requires
            drawable(self.w, self.h),
        ensures
            r@ == svg_blank_text(*self),
    {
        let mut out: Vec<char> = Vec::new();
        push_svg_open(&mut out, self.w, self.h, "Grille vierge");
        let dots: bool = match self.figure {
            Figure::Cells(_) => false,
            Figure::Edges(_) => true,
        };
        push_lattice(&mut out, self.w, self.h, dots);
        push_str(&mut out, "</svg>");
        assert(out@ =~= svg_blank_text(*self));
        string_of(&out)
    }

    /// The correction, in three colours: green = right, red = extra, dashed
    /// grey = missed. `self` is the model; `given` the child's drawing (`None`
    /// = nothing drawn: the whole model shows as missed).
    pub fn svg_review(&self, given: Option<&Grid>) -> (r: String)
        requires
            self.wf(),
            drawable(self.w, self.h),
            given matches Some(d) ==> d.wf() && d.w == self.w && d.h == self.h,
        ensures
            r@ == svg_review_text(
                *self,
                match given {
                    Some(d) => Some(*d),
                    None => None,
                },
            ),
    {
        let mut out: Vec<char> = Vec::new();
        push_svg_open(&mut out, self.w, self.h, "Ton dessin comparé au modèle");
        let dots: bool = match self.figure {
            Figure::Cells(_) => false,
            Figure::Edges(_) => true,
        };
        push_lattice(&mut out, self.w, self.h, dots);
        push_review_marks(&mut out, self, given);
        push_str(&mut out, "</svg>");
        assert(out@ =~= svg_review_text(
            *self,
            match given {
                Some(d) => Some(*d),
                None => None,
            },
        ));
        string_of(&out)
    }
}

/// The width/height ratio of the frame, margin included, to set in CSS.
pub fn frame_aspect(w: i64, h: i64) -> (r: String)
    requires
        drawable(w, h),
    ensures
        r@ == int_text(w * 10 + 4) + " / "@ + int_text(h * 10 + 4),
{
    let mut out: Vec<char> = Vec::new();
    push_int(&mut out, w * U + 2 * MARGIN);
    push_str(&mut out, " / ");
    push_int(&mut out, h * U + 2 * MARGIN);
    assert(out@ =~= int_text(w * 10 + 4) + " / "@ + int_text(h * 10 + 4));
    string_of(&out)
}

// ===== Laws of reading ==============================================================

/// A segment that the payload grammar accepts: two distinct lattice points on
/// a horizontal, a vertical or a 45° diagonal.
pub open spec fn straight(a: Point, b: Point) -> bool {
    let dr = b.0 - a.0;
    let dc = b.1 - a.1;
    !(dr == 0 && dc == 0) && (dr == 0 || dc == 0 || abs(dr) == abs(dc))
}

/// The number of unit edges of the segment from `a` to `b`.
pub open spec fn seg_len(a: Point, b: Point) -> int {
    let dr = b.0 - a.0;
    let dc = b.1 - a.1;
    if abs(dr) >= abs(dc) {
        abs(dr)
    } else {
        abs(dc)
    }
}

proof fn lemma_edge_new_sym(x: Point, y: Point)
    ensures
        edge_new(x, y) == edge_new(y, x),
{
}

proof fn lemma_walk_back(a: Point, b: Point, i: int)
    requires
        straight(a, b),
        0 <= i <= seg_len(a, b),
    ensures
        walk(b, i, sign(a.0 - b.0), sign(a.1 - b.1)) == walk(
            a,
            seg_len(a, b) - i,
            sign(b.0 - a.0),
            sign(b.1 - a.1),
        ),
{
}

/// A segment covers the same unit edges whichever end it is drawn from.
pub proof fn lemma_segment_either_way(a: Point, b: Point)
    requires
        straight(a, b),
    ensures
        segment_edges(a, b).to_set() == segment_edges(b, a).to_set(),
{
    let n = seg_len(a, b);
    let s = segment_edges(a, b);
    let t = segment_edges(b, a);
    assert(seg_len(b, a) == n);
    assert(s.len() == n && t.len() == n);
    let sr = sign(b.0 - a.0);
    let sc = sign(b.1 - a.1);
    assert forall|i: int| 0 <= i < n implies #[trigger] t[i] == s[n - 1 - i] by {
        lemma_walk_back(a, b, i);
        lemma_walk_back(a, b, i + 1);
        lemma_edge_new_sym(walk(a, n - 1 - i, sr, sc), walk(a, n - i, sr, sc));
    }
    assert forall|e: Edge| s.to_set().contains(e) <==> t.to_set().contains(e) by {
        if s.to_set().contains(e) {
            let i = choose|i: int| 0 <= i < s.len() && s[i] == e;
            assert(t[n - 1 - i] == s[n - 1 - (n - 1 - i)]);
            assert(t.contains(e));
        }
        if t.to_set().contains(e) {
            let i = choose|i: int| 0 <= i < t.len() && t[i] == e;
            assert(s.contains(e));
        }
    }
    assert(s.to_set() =~= t.to_set());
}

/// The lattice point `k` unit steps from `a` toward `c`.
pub open spec fn point_on(a: Point, c: Point, k: int) -> Point {
    walk(a, k, sign(c.0 - a.0), sign(c.1 - a.1))
}

proof fn lemma_point_on(a: Point, c: Point, k: int, i: int)
    requires
        straight(a, c),
        0 < k < seg_len(a, c),
        0 <= i <= seg_len(a, c) - k,
    ensures
        ({
            let b = point_on(a, c, k);
            &&& straight(a, b)
            &&& straight(b, c)
            &&& seg_len(a, b) == k
            &&& seg_len(b, c) == seg_len(a, c) - k
            &&& sign(b.0 - a.0) == sign(c.0 - a.0)
            &&& sign(b.1 - a.1) == sign(c.1 - a.1)
            &&& sign(c.0 - b.0) == sign(c.0 - a.0)
            &&& sign(c.1 - b.1) == sign(c.1 - a.1)
            &&& walk(b, i, sign(c.0 - b.0), sign(c.1 - b.1)) == walk(
                a,
                k + i,
                sign(c.0 - a.0),
                sign(c.1 - a.1),
            )
        }),
{
}

/// A long segment is its unit pieces: cut at any lattice point on its way,
/// its two parts cover together exactly the unit edges of the whole.
pub proof fn lemma_segment_pieces(a: Point, c: Point, k: int)
    requires
        straight(a, c),
        0 < k < seg_len(a, c),
    ensures
        segment_edges(a, c).to_set() == segment_edges(a, point_on(a, c, k)).to_set().union(
            segment_edges(point_on(a, c, k), c).to_set(),
        ),
{
    let n = seg_len(a, c);
    let b = point_on(a, c, k);
    let whole = segment_edges(a, c);
    let first = segment_edges(a, b);
    let second = segment_edges(b, c);
    lemma_point_on(a, c, k, 0);
    assert(first.len() == k && second.len() == n - k && whole.len() == n);
    assert forall|i: int| 0 <= i < k implies #[trigger] first[i] == whole[i] by {
    }
    assert forall|i: int| 0 <= i < n - k implies #[trigger] second[i] == whole[k + i] by {
        lemma_point_on(a, c, k, i);
        lemma_point_on(a, c, k, i + 1);
    }
    assert forall|e: Edge|
        whole.to_set().contains(e) <==> first.to_set().union(second.to_set()).contains(e) by {
        if whole.to_set().contains(e) {
            let i = choose|i: int| 0 <= i < whole.len() && whole[i] == e;
            if i < k {
                assert(first[i] == e);
                assert(first.contains(e));
            } else {
                assert(second[i - k] == whole[k + (i - k)]);
                assert(second.contains(e));
            }
        }
        if first.to_set().contains(e) {
            let i = choose|i: int| 0 <= i < first.len() && first[i] == e;
            assert(whole.contains(e));
        }
        if second.to_set().contains(e) {
            let i = choose|i: int| 0 <= i < second.len() && second[i] == e;
            assert(whole[k + i] == e);
            assert(whole.contains(e));
        }
    }
    assert(whole.to_set() =~= first.to_set().union(second.to_set()));
}

/// A token of a cells payload that reads: empty, or a cell of the grid.
pub open spec fn cell_token_ok(t: Seq<char>, w: i64, h: i64) -> bool {
    t.len() == 0 || spec_parse_cell(t, w, h) is Ok
}

/// A token of a segments payload that reads: empty, or a segment of the lattice.
pub open spec fn edge_token_ok(t: Seq<char>, w: i64, h: i64) -> bool {
    t.len() == 0 || spec_parse_segment(t, w, h) is Ok
}

/// The cells that the tokens name.
pub open spec fn named_cells(ts: Seq<Seq<char>>, w: i64, h: i64) -> Set<Point> {
    Set::new(
        |p: Point|
            exists|i: int|
                0 <= i < ts.len() && ts[i].len() > 0 && spec_parse_cell(#[trigger] ts[i], w, h)
                    == Ok::<Point, Seq<char>>(p),
    )
}

/// The unit edges that the tokens name.
pub open spec fn named_edges(ts: Seq<Seq<char>>, w: i64, h: i64) -> Set<Edge> {
    Set::new(
        |e: Edge|
            exists|i: int|
                0 <= i < ts.len() && ts[i].len() > 0 && (spec_parse_segment(#[trigger] ts[i], w, h)
                    matches Ok(es) && es.contains(e)),
    )
}

proof fn lemma_cells_read(ts: Seq<Seq<char>>, w: i64, h: i64)
    ensures
        spec_cells(ts, w, h) is Ok <==> forall|i: int|
            0 <= i < ts.len() ==> cell_token_ok(#[trigger] ts[i], w, h),
        spec_cells(ts, w, h) is Ok ==> spec_cells(ts, w, h) == Ok::<Set<Point>, Seq<char>>(
            named_cells(ts, w, h),
        ),
    decreases ts.len(),
{
    if ts.len() > 0 {
        let pre = ts.drop_last();
        lemma_cells_read(pre, w, h);
        assert forall|i: int| 0 <= i < pre.len() implies #[trigger] pre[i] == ts[i] by {}
        if spec_cells(ts, w, h) is Ok {
            let t = ts.last();
            assert(ts[ts.len() - 1] == t);
            let s = named_cells(pre, w, h);
            let all = named_cells(ts, w, h);
            if t.len() == 0 {
                assert forall|p: Point| all.contains(p) <==> s.contains(p) by {
                    if all.contains(p) {
                        let i = choose|i: int|
                            0 <= i < ts.len() && ts[i].len() > 0 && spec_parse_cell(
                                #[trigger] ts[i],
                                w,
                                h,
                            ) == Ok::<Point, Seq<char>>(p);
                        assert(pre[i] == ts[i]);
                    }
                    if s.contains(p) {
                        let i = choose|i: int|
                            0 <= i < pre.len() && pre[i].len() > 0 && spec_parse_cell(
                                #[trigger] pre[i],
                                w,
                                h,
                            ) == Ok::<Point, Seq<char>>(p);
                        assert(ts[i] == pre[i]);
                    }
                }
                assert(all =~= s);
            } else {
                let q = spec_parse_cell(t, w, h)->Ok_0;
                assert forall|p: Point| all.contains(p) <==> s.insert(q).contains(p) by {
                    if all.contains(p) {
                        let i = choose|i: int|
                            0 <= i < ts.len() && ts[i].len() > 0 && spec_parse_cell(
                                #[trigger] ts[i],
                                w,
                                h,
                            ) == Ok::<Point, Seq<char>>(p);
                        if i < pre.len() {
                            assert(pre[i] == ts[i]);
                        }
                    }
                    if s.contains(p) {
                        let i = choose|i: int|
                            0 <= i < pre.len() && pre[i].len() > 0 && spec_parse_cell(
                                #[trigger] pre[i],
                                w,
                                h,
                            ) == Ok::<Point, Seq<char>>(p);
                        assert(ts[i] == pre[i]);
                    }
                }
                assert(all =~= s.insert(q));
            }
        }
        if forall|i: int| 0 <= i < ts.len() ==> cell_token_ok(#[trigger] ts[i], w, h) {
            assert(cell_token_ok(ts[ts.len() - 1], w, h));
        } else {
            let i = choose|i: int| 0 <= i < ts.len() && !cell_token_ok(#[trigger] ts[i], w, h);
            if i < pre.len() {
                assert(pre[i] == ts[i]);
            }
        }
    } else {
        assert(named_cells(ts, w, h) =~= Set::empty());
    }
}

proof fn lemma_edges_read(ts: Seq<Seq<char>>, w: i64, h: i64)
    ensures
        spec_edges(ts, w, h) is Ok <==> forall|i: int|
            0 <= i < ts.len() ==> edge_token_ok(#[trigger] ts[i], w, h),
        spec_edges(ts, w, h) is Ok ==> spec_edges(ts, w, h) == Ok::<Set<Edge>, Seq<char>>(
            named_edges(ts, w, h),
        ),
    decreases ts.len(),
{
    if ts.len() > 0 {
        let pre = ts.drop_last();
        lemma_edges_read(pre, w, h);
        assert forall|i: int| 0 <= i < pre.len() implies #[trigger] pre[i] == ts[i] by {}
        if spec_edges(ts, w, h) is Ok {
            let t = ts.last();
            assert(ts[ts.len() - 1] == t);
            let s = named_edges(pre, w, h);
            let all = named_edges(ts, w, h);
            if t.len() == 0 {
                assert forall|e: Edge| all.contains(e) <==> s.contains(e) by {
                    if all.contains(e) {
                        let i = choose|i: int|
                            0 <= i < ts.len() && ts[i].len() > 0 && (spec_parse_segment(
                                #[trigger] ts[i],
                                w,
                                h,
                            ) matches Ok(es) && es.contains(e));
                        assert(pre[i] == ts[i]);
                    }
                    if s.contains(e) {
                        let i = choose|i: int|
                            0 <= i < pre.len() && pre[i].len() > 0 && (spec_parse_segment(
                                #[trigger] pre[i],
                                w,
                                h,
                            ) matches Ok(es) && es.contains(e));
                        assert(ts[i] == pre[i]);
                    }
                }
                assert(all =~= s);
            } else {
                let q = spec_parse_segment(t, w, h)->Ok_0;
                assert forall|e: Edge| all.contains(e) <==> s.union(q.to_set()).contains(e) by {
                    if all.contains(e) {
                        let i = choose|i: int|
                            0 <= i < ts.len() && ts[i].len() > 0 && (spec_parse_segment(
                                #[trigger] ts[i],
                                w,
                                h,
                            ) matches Ok(es) && es.contains(e));
                        if i < pre.len() {
                            assert(pre[i] == ts[i]);
                        }
                    }
                    if s.contains(e) {
                        let i = choose|i: int|
                            0 <= i < pre.len() && pre[i].len() > 0 && (spec_parse_segment(
                                #[trigger] pre[i],
                                w,
                                h,
                            ) matches Ok(es) && es.contains(e));
                        assert(ts[i] == pre[i]);
                    }
                    if q.to_set().contains(e) {
                        assert(ts[ts.len() - 1].len() > 0);
                    }
                }
                assert(all =~= s.union(q.to_set()));
            }
        }
        if forall|i: int| 0 <= i < ts.len() ==> edge_token_ok(#[trigger] ts[i], w, h) {
            assert(edge_token_ok(ts[ts.len() - 1], w, h));
        } else {
            let i = choose|i: int| 0 <= i < ts.len() && !edge_token_ok(#[trigger] ts[i], w, h);
            if i < pre.len() {
                assert(pre[i] == ts[i]);
            }
        }
    } else {
        assert(named_edges(ts, w, h) =~= Set::empty());
    }
}

/// A payload names a figure, not a way of drawing it: the same tokens in
/// another order, or some of them repeated, read as the same cells, and as
/// the same unit edges.
pub proof fn lemma_marks_any_order(a: Seq<Seq<char>>, b: Seq<Seq<char>>, w: i64, h: i64)
    requires
        forall|t: Seq<char>| a.contains(t) <==> b.contains(t),
    ensures
        spec_cells(a, w, h) is Ok ==> spec_cells(b, w, h) == spec_cells(a, w, h),
        spec_edges(a, w, h) is Ok ==> spec_edges(b, w, h) == spec_edges(a, w, h),
{
    lemma_cells_read(a, w, h);
    lemma_cells_read(b, w, h);
    lemma_edges_read(a, w, h);
    lemma_edges_read(b, w, h);
    if spec_cells(a, w, h) is Ok {
        assert forall|i: int| 0 <= i < b.len() implies cell_token_ok(#[trigger] b[i], w, h) by {
            assert(b.contains(b[i]));
            let j = choose|j: int| 0 <= j < a.len() && a[j] == b[i];
            assert(cell_token_ok(a[j], w, h));
        }
        assert forall|p: Point| named_cells(a, w, h).contains(p) <==> named_cells(b, w, h).contains(
            p,
        ) by {
            if named_cells(a, w, h).contains(p) {
                let i = choose|i: int|
                    0 <= i < a.len() && a[i].len() > 0 && spec_parse_cell(#[trigger] a[i], w, h)
                        == Ok::<Point, Seq<char>>(p);
                assert(a.contains(a[i]));
                let j = choose|j: int| 0 <= j < b.len() && b[j] == a[i];
                assert(b[j].len() > 0 && spec_parse_cell(b[j], w, h) == Ok::<Point, Seq<char>>(p));
            }
            if named_cells(b, w, h).contains(p) {
                let i = choose|i: int|
                    0 <= i < b.len() && b[i].len() > 0 && spec_parse_cell(#[trigger] b[i], w, h)
                        == Ok::<Point, Seq<char>>(p);
                assert(b.contains(b[i]));
                let j = choose|j: int| 0 <= j < a.len() && a[j] == b[i];
                assert(a[j].len() > 0 && spec_parse_cell(a[j], w, h) == Ok::<Point, Seq<char>>(p));
            }
        }
        assert(named_cells(a, w, h) =~= named_cells(b, w, h));
    }
    if spec_edges(a, w, h) is Ok {
        assert forall|i: int| 0 <= i < b.len() implies edge_token_ok(#[trigger] b[i], w, h) by {
            assert(b.contains(b[i]));
            let j = choose|j: int| 0 <= j < a.len() && a[j] == b[i];
            assert(edge_token_ok(a[j], w, h));
        }
        assert forall|e: Edge| named_edges(a, w, h).contains(e) <==> named_edges(b, w, h).contains(
            e,
        ) by {
            if named_edges(a, w, h).contains(e) {
                let i = choose|i: int|
                    0 <= i < a.len() && a[i].len() > 0 && (spec_parse_segment(#[trigger] a[i], w, h)
                        matches Ok(es) && es.contains(e));
                assert(a.contains(a[i]));
                let j = choose|j: int| 0 <= j < b.len() && b[j] == a[i];
                assert(b[j].len() > 0 && (spec_parse_segment(b[j], w, h) matches Ok(es)
                    && es.contains(e)));
            }
            if named_edges(b, w, h).contains(e) {
                let i = choose|i: int|
                    0 <= i < b.len() && b[i].len() > 0 && (spec_parse_segment(#[trigger] b[i], w, h)
                        matches Ok(es) && es.contains(e));
                assert(b.contains(b[i]));
                let j = choose|j: int| 0 <= j < a.len() && a[j] == b[i];
                assert(a[j].len() > 0 && (spec_parse_segment(a[j], w, h) matches Ok(es)
                    && es.contains(e)));
            }
        }
        assert(named_edges(a, w, h) =~= named_edges(b, w, h));
    }
}

/// A drawing sent mark by mark is the figure of the payload that lists the
/// same marks: tokens that a payload reads, written without surrounding
/// blanks, give `from_tokens` the same cells, or the same unit edges.
pub proof fn lemma_tokens_as_payload(ts: Seq<Seq<char>>, w: i64, h: i64)
    requires
        forall|i: int| 0 <= i < ts.len() ==> trim(#[trigger] ts[i]) == ts[i],
    ensures
        spec_cells(ts, w, h) is Ok ==> token_cells(ts, w, h) == spec_cells(ts, w, h)->Ok_0,
        spec_edges(ts, w, h) is Ok ==> token_edges(ts, w, h) == spec_edges(ts, w, h)->Ok_0,
    decreases ts.len(),
{
    if ts.len() > 0 {
        let pre = ts.drop_last();
        assert forall|i: int| 0 <= i < pre.len() implies trim(#[trigger] pre[i]) == pre[i] by {
            assert(pre[i] == ts[i]);
        }
        lemma_tokens_as_payload(pre, w, h);
        let t = ts.last();
        assert(trim(ts[ts.len() - 1]) == ts[ts.len() - 1]);
        if t.len() == 0 {
            assert(find_char(t, ',') is None);
            assert(find_char(t, '-') is None);
        }
    }
}

/// Reading ignores blanks and letter case: two payloads that are the same
/// once white space is dropped and letters are lowercased read as the same
/// figure.
pub proof fn lemma_blanks_and_case_ignored(a: Seq<char>, b: Seq<char>)
    requires
        squash_lower(a) == squash_lower(b),
    ensures
        spec_parse(a) is Ok ==> spec_parse(b) == spec_parse(a),
{
}

/// The canonical writing of a figure: the writing of any well-formed grid of
/// it (they all write alike, `lemma_same_writing`).
pub open spec fn canonical_text(m: GridView) -> Seq<char> {
    serialize_text(choose|g: Grid| g.wf() && g@ == m)
}

/// What `serialize` writes of a well-formed grid is the canonical writing of
/// its figure.
pub proof fn lemma_canonical_text(g: Grid)
    requires
        g.wf(),
    ensures
        serialize_text(g) == canonical_text(g@),
{
    assert(g.wf() && g@ == g@);
    let c = choose|x: Grid| x.wf() && x@ == g@;
    lemma_same_writing(g, c);
}

/// A model typed by an adult, checked for the kind and written canonically:
/// the text that goes to the bank.
pub fn canonical_model(kind: &str, raw: &str) -> (r: Result<String, String>)
    ensures
        match spec_validate_model(kind@, raw@) {
            Ok(m) => r matches Ok(t) && t@ == canonical_text(m),
            Err(e) => r matches Err(t) && t@ == e,
        },
{
    match Grid::validate_model(kind, raw) {
        Ok(g) => {
            proof {
                lemma_canonical_text(g);
            }
            Ok(g.serialize())
        },
        Err(e) => Err(e),
    }
}

} // verus!
