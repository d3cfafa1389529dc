use std::collections::BTreeSet;

use sesame::editor::toggles;
use sesame::grid::{frame_aspect, is_grid_kind, Edge, Figure, Grid, KIND_CELLS, KIND_LINES};

fn edge_count(g: &Grid) -> usize {
    match &g.figure {
        Figure::Edges(e) => e.len(),
        _ => panic!("figure de segments attendue"),
    }
}

// ===== Forme canonique =====

#[test]
fn cell_order_does_not_matter() {
    let a = Grid::parse("4x4:c=2,1;0,0;1,3").unwrap();
    let b = Grid::parse("4x4:c=1,3;2,1;0,0").unwrap();
    assert_eq!(a, b);
}

#[test]
fn segment_direction_does_not_matter() {
    let a = Grid::parse("4x4:e=0,0-0,1").unwrap();
    let b = Grid::parse("4x4:e=0,1-0,0").unwrap();
    assert_eq!(a, b);
}

#[test]
fn long_segment_equals_its_unit_pieces() {
    let long = Grid::parse("4x4:e=0,0-0,3").unwrap();
    let short = Grid::parse("4x4:e=0,0-0,1;0,1-0,2;0,2-0,3").unwrap();
    assert_eq!(long, short);
    assert_eq!(edge_count(&long), 3);
}

#[test]
fn long_diagonal_is_decomposed_too() {
    let long = Grid::parse("4x4:e=0,0-2,2").unwrap();
    let short = Grid::parse("4x4:e=0,0-1,1;1,1-2,2").unwrap();
    assert_eq!(long, short);
    assert_eq!(edge_count(&long), 2);
}

#[test]
fn duplicate_marks_collapse() {
    let g = Grid::parse("4x4:c=1,1;1,1;1,1").unwrap();
    assert_eq!(g.marks(), 1);
}

#[test]
fn serialize_round_trips() {
    for raw in ["8x8:c=0,0;3,4;7,7", "6x6:e=0,0-0,3;1,1-2,2", "4x4:c=", "4x4:e="] {
        let g = Grid::parse(raw).unwrap();
        assert_eq!(Grid::parse(&g.serialize()).unwrap(), g, "aller-retour de « {raw} »");
    }
}

#[test]
fn parse_is_forgiving_about_spacing_and_case() {
    let a = Grid::parse(" 4X4 : C = 1,1 ; 2,2 ").unwrap();
    let b = Grid::parse("4x4:c=1,1;2,2").unwrap();
    assert_eq!(a, b);
}

// ===== Refus =====

#[test]
fn rejects_crooked_slopes() {
    assert!(Grid::parse("4x4:e=0,0-1,2").is_err());
}

#[test]
fn rejects_out_of_bounds() {
    assert!(Grid::parse("4x4:c=4,0").is_err(), "ligne 4 n'existe pas sur 4 cases");
    assert!(Grid::parse("4x4:e=0,0-0,5").is_err());
    assert!(Grid::parse("4x4:e=4,4-4,3").is_ok());
}

#[test]
fn rejects_degenerate_segment() {
    assert!(Grid::parse("4x4:e=1,1-1,1").is_err());
}

#[test]
fn rejects_absurd_sizes() {
    assert!(Grid::parse("1x1:c=0,0").is_err());
    assert!(Grid::parse("40x40:c=0,0").is_err());
}

#[test]
fn rejects_kind_mismatch() {
    assert!(Grid::parse_as(KIND_LINES, "4x4:c=1,1").is_err());
    assert!(Grid::parse_as(KIND_CELLS, "4x4:c=1,1").is_ok());
}

#[test]
fn rejects_empty_model() {
    assert!(Grid::validate_model(KIND_CELLS, "4x4:c=").is_err());
    assert!(Grid::validate_model(KIND_CELLS, "4x4:c=1,1").is_ok());
}

// ===== Ce que l'enfant envoie =====

#[test]
fn tokens_build_the_same_figure_as_a_payload() {
    let model = Grid::parse("4x4:c=1,1;2,2").unwrap();
    let drawn = Grid::from_tokens(KIND_CELLS, 4, 4, &["2,2".into(), "1,1".into()]);
    assert_eq!(model, drawn);
}

#[test]
fn tokens_ignore_garbage_without_losing_the_rest() {
    let drawn = Grid::from_tokens(
        KIND_CELLS,
        4,
        4,
        &["1,1".into(), "n'importe quoi".into(), "9,9".into(), "2,2".into()],
    );
    assert_eq!(drawn, Grid::parse("4x4:c=1,1;2,2").unwrap());
}

#[test]
fn empty_submission_never_matches_a_model() {
    let model = Grid::parse("4x4:e=0,0-0,1").unwrap();
    let drawn = Grid::from_tokens(KIND_LINES, 4, 4, &[]);
    assert_ne!(model, drawn);
    assert!(drawn.is_empty());
}

#[test]
fn one_mark_too_many_is_wrong() {
    let model = Grid::parse("4x4:c=1,1;2,2").unwrap();
    let drawn = Grid::from_tokens(KIND_CELLS, 4, 4, &["1,1".into(), "2,2".into(), "3,3".into()]);
    assert_ne!(model, drawn);
}

// ===== Éditeur =====

#[test]
fn toggles_cover_every_cell() {
    assert_eq!(toggles(KIND_CELLS, 8, 8).len(), 64);
    assert_eq!(toggles(KIND_CELLS, 4, 6).len(), 24);
}

#[test]
fn toggles_cover_every_unit_edge_exactly_once() {
    for (w, h) in [(4i64, 4i64), (6, 6), (8, 8), (4, 6)] {
        let t = toggles(KIND_LINES, w, h);
        let expected = ((h + 1) * w + h * (w + 1) + 2 * w * h) as usize;
        assert_eq!(t.len(), expected, "grille {w}×{h}");

        let unique: BTreeSet<&String> = t.iter().map(|x| &x.value).collect();
        assert_eq!(unique.len(), t.len(), "doublon de zone cliquable sur {w}×{h}");
    }
}

#[test]
fn every_toggle_value_is_a_valid_canonical_token() {
    for kind in [KIND_CELLS, KIND_LINES] {
        for t in toggles(kind, 8, 8) {
            let g = Grid::from_tokens(kind, 8, 8, &[t.value.clone()]);
            assert_eq!(g.marks(), 1, "jeton « {} » perdu en route", t.value);
        }
    }
}

// ===== Further cases =====

#[test]
fn grid_kinds_are_exactly_the_two() {
    assert!(is_grid_kind("grid_cells"));
    assert!(is_grid_kind("grid_lines"));
    assert!(!is_grid_kind("single"));
    assert!(!is_grid_kind("Grid_cells"));
}

#[test]
fn edge_new_orders_its_ends() {
    assert_eq!(Edge::new((1, 2), (0, 5)), Edge { a: (0, 5), b: (1, 2) });
    assert_eq!(Edge::new((0, 1), (0, 0)).token(), "0,0-0,1");
}

#[test]
fn serialize_writes_the_canonical_form() {
    let g = Grid::parse("4x4:e=0,3-0,0").unwrap();
    assert_eq!(g.serialize(), "4x4:e=0,0-0,1;0,1-0,2;0,2-0,3");
    let c = Grid::parse("5x3:c=2,1;0,4").unwrap();
    assert_eq!(c.serialize(), "5x3:c=0,4;2,1");
}

#[test]
fn parse_errors_name_the_fault() {
    assert_eq!(
        Grid::parse("").unwrap_err(),
        "figure vide : attendu « 8x8:c=… » ou « 8x8:e=… »"
    );
    assert_eq!(
        Grid::parse("4x4").unwrap_err(),
        "« 4x4 » : il manque le « : » après la taille"
    );
    assert_eq!(
        Grid::parse("44:c=").unwrap_err(),
        "taille « 44 » illisible (attendu « 8x8 »)"
    );
    assert_eq!(Grid::parse("ax4:c=").unwrap_err(), "largeur « a » n'est pas un nombre");
    assert_eq!(Grid::parse("4xb:c=").unwrap_err(), "hauteur « b » n'est pas un nombre");
    assert_eq!(Grid::parse("1x4:c=").unwrap_err(), "largeur 1 hors de [2,12]");
    assert_eq!(Grid::parse("4x13:c=").unwrap_err(), "hauteur 13 hors de [2,12]");
    assert_eq!(
        Grid::parse("4x4:c").unwrap_err(),
        "« c » : attendu « c=… » ou « e=… »"
    );
    assert_eq!(
        Grid::parse("4x4:z=").unwrap_err(),
        "marqueur « z » inconnu (attendu « c » pour les cases, « e » pour les segments)"
    );
    assert_eq!(
        Grid::parse("4x4:c=4,0").unwrap_err(),
        "case « 4,0 » hors de la grille 4×4"
    );
    assert_eq!(
        Grid::parse("4x4:e=0,0-1,2").unwrap_err(),
        "segment « 0,0-1,2 » : ni horizontal, ni vertical, ni diagonal à 45°"
    );
    assert_eq!(
        Grid::parse_as(KIND_LINES, "4x4:c=1,1").unwrap_err(),
        "type 'grid_lines' déclaré, mais la figure est une figure de type 'grid_cells'"
    );
    assert_eq!(
        Grid::validate_model(KIND_CELLS, "4x4:c=").unwrap_err(),
        "le modèle est vide : il n'y a rien à reproduire"
    );
}

#[test]
fn describe_counts_the_marks() {
    assert_eq!(Grid::parse("8x8:c=1,1").unwrap().describe(), "grille 8×8, 1 case");
    assert_eq!(
        Grid::parse("6x4:e=0,0-0,3").unwrap().describe(),
        "grille 6×4, 3 segments"
    );
}

#[test]
fn blank_like_keeps_size_and_kind() {
    let g = Grid::parse("5x3:e=0,0-1,1").unwrap();
    let b = g.blank_like();
    assert_eq!((b.w, b.h, b.kind(), b.marks()), (5, 3, KIND_LINES, 0));
    assert!(!g.is_empty());
    assert!(b.is_empty());
}

#[test]
fn same_is_grading() {
    let a = Grid::parse("4x4:c=1,1;2,2").unwrap();
    let b = Grid::from_tokens(KIND_CELLS, 4, 4, &[" 2,2 ".into(), "1,1".into()]);
    assert!(a.same(&b));
    assert!(!a.same(&a.blank_like()));
}

#[test]
fn frame_aspect_includes_the_margin() {
    assert_eq!(frame_aspect(8, 6), "84 / 64");
}

#[test]
fn svg_blank_draws_lattice_only() {
    let g = Grid::parse("2x2:c=0,0").unwrap();
    let s = g.svg_blank();
    assert!(s.starts_with("<svg class=\"g-svg\" viewBox=\"-2 -2 24 24\""));
    assert!(s.contains("aria-label=\"Grille vierge\""));
    assert_eq!(s.matches("<line").count(), 6);
    assert!(!s.contains("<rect"));
    assert!(s.ends_with("</svg>"));
}

#[test]
fn svg_review_colours_right_extra_missed() {
    let model = Grid::parse("3x3:c=0,0;1,1").unwrap();
    let drawn = Grid::from_tokens(KIND_CELLS, 3, 3, &["1,1".into(), "2,2".into()]);
    let s = model.svg_review(Some(&drawn));
    assert!(s.contains("fill=\"#2fae66\""), "la case juste est verte");
    assert!(s.contains("fill=\"#e07a5f\""), "la case en trop est rouge");
    assert!(s.contains("stroke=\"#aab2c4\" stroke-width=\"1\" stroke-dasharray=\"2 2\""));
    let nothing = model.svg_review(None);
    assert_eq!(nothing.matches("stroke-dasharray").count(), 2);
}

#[test]
fn ascii_draws_cells_and_edges() {
    let c = Grid::parse("3x2:c=0,0;1,2").unwrap();
    assert_eq!(c.ascii(), "██· · \n· · ██");
    let e = Grid::parse("2x2:e=0,0-1,1;0,1-1,0;0,0-0,1;1,2-2,2").unwrap();
    assert_eq!(e.ascii(), "·─· ·\n ╳   \n· · ·\n    │\n· · ·");
}

#[test]
fn toggles_place_each_zone() {
    let t = toggles(KIND_LINES, 2, 2);
    assert_eq!((t[0].value.as_str(), t[0].class, t[0].top_row, t[0].left_col, t[0].rot), ("0,0-1,1", "g-edge is-diag", 0, 0, 45));
    assert_eq!((t[1].value.as_str(), t[1].class, t[1].top_row, t[1].left_col, t[1].rot), ("0,1-1,0", "g-edge is-diag", 1, 0, -45));
    let across = t.iter().find(|z| z.value == "2,1-2,2").unwrap();
    assert_eq!((across.class, across.top_row, across.left_col, across.rot), ("g-edge", 2, 1, 0));
    let down = t.iter().find(|z| z.value == "1,2-2,2").unwrap();
    assert_eq!((down.class, down.top_row, down.left_col, down.rot), ("g-edge", 1, 2, 90));
    let cells = toggles(KIND_CELLS, 2, 2);
    assert_eq!(cells[3].value, "1,1");
    assert_eq!(cells[3].class, "g-cell");
}
