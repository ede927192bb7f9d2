//! Cards: rows, heights and hits.

use graviz::cards::{
    index_of, Card, ModelOptions, RowHit, TypeColor, HEADER_H, HEADER_H_WITH_DESC, ROW_H,
    ROW_H_WITH_DESC, TIGHT_ROW_H,
};
use graviz::model::{build_model, union_clusters, Model};
use graviz::sdl::sdl_to_graph;
use graviz::types::SdlToGraphOptions;

fn card<'a>(m: &'a Model, name: &str) -> &'a Card {
    &m.cards[index_of(&m.graph.nodes, name).unwrap() as usize]
}

fn model_of(sdl: &str, opts: ModelOptions) -> Model {
    let g = sdl_to_graph(
        sdl,
        &SdlToGraphOptions { hide_relay_boilerplate: false, ..Default::default() },
    );
    assert!(g.error.is_none(), "{:?}", g.error);
    build_model(g, "t".into(), &opts)
}

/// A worked example: Object with 3 fields + 1 interface, no
/// descriptions → h=124, band 98..124, iface rows start at 104 so the
/// band text baseline lands at 114.
#[test]
fn card_height_and_band_match_the_web_worked_example() {
    let m = model_of(
        "interface Node { id: ID! }
         type User implements Node { id: ID!, a: String, b: String }",
        ModelOptions::on_day("2020-01-01"),
    );
    let c = card(&m, "User");
    assert_eq!(c.rows.len(), 3);
    assert_eq!(c.implements.len(), 1);
    assert_eq!(c.h, 124, "card height");
    assert_eq!(c.band.iface_band_top, 98, "wash top");
    assert_eq!(c.band.iface_band_bottom, 124, "band runs to the card bottom");
    assert_eq!(c.band.iface_rows_top, 104, "rows centered in the band");
    assert_eq!(c.band.iface_rows_top + 10, 114, "band text baseline");
}

#[test]
fn body_row_grid_matches_the_web() {
    let m = model_of(
        "type Query { a: String, b: String }",
        ModelOptions::on_day("2020-01-01"),
    );
    let c = card(&m, "Query");
    assert_eq!(c.header_h, HEADER_H);
    assert_eq!(c.body_top(), HEADER_H + 6, "bodyY = headerH + TOP_BODY_PAD - 2");
    assert_eq!(c.row_baseline(0), HEADER_H + 16, "first baseline");
    assert_eq!(c.row_baseline(1) - c.row_baseline(0), ROW_H, "pitch");
    // hit-testing is the exact inverse of the painter
    assert_eq!(c.hit_row(true, c.row_y(1) as i64 + 1), Some(RowHit::Row(1)));
    assert_eq!(c.hit_row(true, 10), None, "header is not a row");
}

#[test]
fn descriptions_mode_uses_the_taller_grid() {
    let m = model_of(
        "\"doc\" type Query { a: String }",
        ModelOptions {
            show_descriptions: true,
            ..ModelOptions::on_day("2020-01-01")
        },
    );
    let c = card(&m, "Query");
    assert_eq!(c.header_h, HEADER_H_WITH_DESC);
    assert_eq!(c.row_h, ROW_H_WITH_DESC);
    assert!(c.header_desc.is_some(), "header description is rendered");
}

#[test]
fn union_members_use_tight_pitch_and_scalars_get_a_stub_row() {
    let m = model_of(
        "type A { x: String } type B { x: String } union U = A | B scalar Custom",
        ModelOptions {
            show_descriptions: true,
            ..ModelOptions::on_day("2020-01-01")
        },
    );
    let u = card(&m, "U");
    assert_eq!(u.body_pitch(), TIGHT_ROW_H, "union members stay tight");
    assert_eq!(u.h, HEADER_H_WITH_DESC + 8 + 2 * TIGHT_ROW_H + 10);
    let s = card(&m, "Custom");
    assert!(s.rows.is_empty());
    assert_eq!(s.h, HEADER_H_WITH_DESC + 8 + ROW_H_WITH_DESC + 10);
}

#[test]
fn builtin_scalar_and_expired_types_are_colored_apart() {
    let m = model_of(
        "type Query { s: String, u: Other @deprecated(reason: \"gone [until 2000-01-01]\") }
         type Other { x: String }",
        ModelOptions::on_day("2020-01-01"),
    );
    let c = card(&m, "Query");
    assert_eq!(c.rows[0].type_color, TypeColor::BuiltinScalar);
    assert_eq!(c.rows[1].type_color, TypeColor::Expired);
    assert!(c.rows[1].until_expired);
}

#[test]
fn hiding_primitives_remaps_rows_for_ports_and_pins() {
    let m = model_of(
        "type Query { s: String, o: Other } type Other { x: String }",
        ModelOptions {
            hide_primitive_fields: true,
            ..ModelOptions::on_day("2020-01-01")
        },
    );
    let c = card(&m, "Query");
    assert_eq!(c.rows.len(), 1, "String field hidden");
    assert_eq!(c.display_row(0), None, "hidden field maps to nothing");
    assert_eq!(c.display_row(1), Some(0), "second field moved up");
}

#[test]
fn unions_with_members_are_clusters() {
    let m = model_of(
        "union Many = A | B union One = A type A { x: Int } type B { y: Int } type Query { m: Many }",
        ModelOptions::on_day("2020-01-01"),
    );
    let clusters = union_clusters(&m.cards);
    assert_eq!(clusters.len(), 1);
    assert_eq!(clusters[0].parent, card(&m, "Many").index);
    assert_eq!(clusters[0].members, vec![card(&m, "A").index, card(&m, "B").index]);
}
