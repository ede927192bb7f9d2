//! What the canvas paints, says and does.

use graviz::browse::field_path;
use graviz::cards::{index_of, Card, ModelOptions, RowHit};
use graviz::model::{build_model, edge_group, EdgeGroup, Link, Model};
use graviz::scene::{
    card_paint, click_card, edge_color, is_dimmed, links_in_pass, pointer_moves, row_paint, Click,
    Hover, Ring, RowPaint, Tone,
};
use graviz::sdl::sdl_to_graph;
use graviz::theme::{dark, light, theme_for, ThemeMode, ThemeState};
use graviz::tips::tooltip_of;
use graviz::trail::{row_click, status_line, Over, RowClick, Trail};
use graviz::types::{NodeKind, SdlToGraphOptions};

const SHOP: &str = r#"
"A thing with an id"
interface Node { id: ID! }
type Query { item(id: ID!, lang: String): Item, old: Item @deprecated }
"Something to buy"
type Item implements Node { id: ID!, "What it is" kind: Kind, price: Int @deprecated(reason: "[until 2020-01-01] use cost") }
enum Kind { BOOK, "Runs" SHOE @deprecated(reason: "none left") }
union Hit = Item | Query
scalar Money
"#;

fn shop() -> Model {
    let g = sdl_to_graph(
        SHOP,
        &SdlToGraphOptions { hide_relay_boilerplate: false, ..Default::default() },
    );
    assert!(g.error.is_none(), "{:?}", g.error);
    build_model(g, "shop".into(), &ModelOptions::on_day("2021-01-01"))
}

fn at(m: &Model, name: &str) -> u32 {
    index_of(&m.graph.nodes, name).unwrap()
}

fn card<'a>(m: &'a Model, name: &str) -> &'a Card {
    &m.cards[at(m, name) as usize]
}

fn link<'a>(m: &'a Model, from: &str, to: &str, group: EdgeGroup) -> &'a Link {
    let (f, t) = (at(m, from), at(m, to));
    m.links.iter().find(|l| l.from == f && l.to == t && l.group == group).unwrap()
}

// ── model ──

#[test]
fn parallel_fields_share_one_link() {
    let m = shop();
    let l = link(&m, "Query", "Item", EdgeGroup::FieldNullable);
    assert_eq!(l.labels, vec!["item", "old"]);
    assert!(!l.hub_faded);
}

#[test]
fn links_leave_at_the_row_of_their_field() {
    let m = shop();
    let l = link(&m, "Item", "Kind", EdgeGroup::FieldNullable);
    let c = card(&m, "Item");
    assert_eq!(l.from_port_y, c.row_y(1) + c.body_pitch() / 2);
    assert_eq!(c.port_y(None), c.h / 2);
}

#[test]
fn hubs_fade_their_links() {
    let mut sdl = String::from("type Hub { id: ID! }\n");
    for i in 0..60 {
        sdl.push_str(&format!("type T{i} {{ hub: Hub }}\n"));
    }
    let g = sdl_to_graph(&sdl, &SdlToGraphOptions::default());
    let m = build_model(g, "hub".into(), &ModelOptions::on_day("2021-01-01"));
    assert_eq!(m.links.len(), 60);
    assert!(m.links.iter().all(|l| l.hub_faded));
}

#[test]
fn the_coverage_counts_types_and_rows() {
    let m = shop();
    let (documented, total) = m.desc_coverage;
    // types: Node, Query, Item, Kind, Hit, Money; rows: 1 + 2 + 3 + 2
    assert_eq!(total, 6 + 8);
    assert_eq!(documented, 2 + 2);
}

#[test]
fn roots_of_the_slice_are_marked() {
    let m = shop();
    assert_eq!(m.roots, vec![at(&m, "Query")]);
    assert_eq!(m.overlay_marks, 0);
}

#[test]
fn edges_are_grouped_by_how_they_are_drawn() {
    let m = shop();
    let groups: Vec<EdgeGroup> = m.graph.edges.iter().map(edge_group).collect();
    assert!(groups.contains(&EdgeGroup::Implements));
    assert!(groups.contains(&EdgeGroup::Union));
    assert!(groups.contains(&EdgeGroup::FieldNullable));
}

// ── painting ──

#[test]
fn deprecated_fields_are_struck_and_pale_until_they_expire() {
    let m = shop();
    let old = &card(&m, "Query").rows[1];
    assert_eq!(
        row_paint(old),
        RowPaint {
            name: Tone::Text,
            faded: true,
            struck: true,
            kind: Some(Tone::Type),
            chain: false,
            tick: false,
        }
    );
    let price = &card(&m, "Item").rows[2];
    let paint = row_paint(price);
    assert_eq!((paint.name, paint.faded, paint.struck), (Tone::Expired, false, true));
    assert_eq!(paint.kind, Some(Tone::Expired));
    assert_eq!(row_paint(&card(&m, "Item").rows[0]).kind, Some(Tone::Builtin));
}

#[test]
fn enum_values_and_members_have_tones_of_their_own() {
    let m = shop();
    let shoe = row_paint(&card(&m, "Kind").rows[1]);
    assert_eq!((shoe.name, shoe.struck, shoe.faded, shoe.kind), (Tone::Muted, false, false, None));
    let member = row_paint(&card(&m, "Hit").rows[0]);
    assert_eq!((member.name, member.struck), (Tone::Member, false));
    assert_eq!(dark().tone_color(Tone::Member), dark().kind_color(NodeKind::Object));
}

#[test]
fn a_focus_dims_what_does_not_touch_it() {
    let m = shop();
    let l = link(&m, "Query", "Item", EdgeGroup::FieldNullable);
    assert!(!is_dimmed(None, l));
    assert!(!is_dimmed(Some(at(&m, "Item")), l));
    assert!(is_dimmed(Some(at(&m, "Kind")), l));
}

#[test]
fn each_link_is_painted_in_one_pass() {
    let m = shop();
    let groups = [
        EdgeGroup::FieldNonNull,
        EdgeGroup::FieldNullable,
        EdgeGroup::Union,
        EdgeGroup::Implements,
        EdgeGroup::Arg,
    ];
    let mut painted = vec![0; m.links.len()];
    for g in groups {
        for dim in [false, true] {
            for i in links_in_pass(&m.links, g, dim, Some(at(&m, "Item")), Some(0)) {
                assert_eq!(m.links[i].group, g);
                painted[i] += 1;
            }
        }
    }
    assert_eq!(painted[0], 0, "the one under the pointer");
    assert!(painted[1..].iter().all(|&n| n == 1), "{painted:?}");
}

#[test]
fn links_take_the_color_of_what_they_mean() {
    let p = dark();
    assert_eq!(edge_color(&p, EdgeGroup::FieldNonNull), (p.kind_color(NodeKind::Object), 85));
    assert_eq!(edge_color(&p, EdgeGroup::FieldNullable), (p.kind_color(NodeKind::Object), 45));
    assert_eq!(edge_color(&p, EdgeGroup::Union), (p.kind_color(NodeKind::Union), 85));
    assert_eq!(edge_color(&p, EdgeGroup::Implements), (p.kind_color(NodeKind::Interface), 55));
    assert_eq!(edge_color(&p, EdgeGroup::Arg), (0xe08a4aff, 55));
}

#[test]
fn a_plain_card_gets_nothing_extra() {
    let m = shop();
    let p = card_paint(card(&m, "Item"), at(&m, "Item"), None, None, None, false, true);
    assert!(!p.dimmed && !p.undocumented && !p.scalar_note);
    assert_eq!(p.ring, Ring::Nothing);
    assert_eq!((p.pinned, p.wash, p.chip), (None, None, None));
    assert!(p.bare_rows.is_empty());
}

#[test]
fn focus_hover_and_pin_are_painted_on_their_cards() {
    let m = shop();
    let i = at(&m, "Item");
    let c = card(&m, "Item");
    let hover = Hover { card: i, row: Some(RowHit::Row(1)) };
    let p = card_paint(c, i, Some(i), Some(hover), Some((i, 2)), false, true);
    assert_eq!(p.ring, Ring::Focused, "focus goes before hover");
    assert_eq!(p.wash, Some((c.row_y(1), c.body_pitch())));
    assert_eq!(p.chip, Some(1));
    assert_eq!(p.pinned, Some(2));
    let other = card_paint(card(&m, "Kind"), at(&m, "Kind"), Some(i), Some(hover), Some((i, 2)), false, true);
    assert!(other.dimmed);
    assert_eq!((other.ring, other.wash, other.pinned), (Ring::Nothing, None, None));
}

#[test]
fn the_bands_are_washed_under_the_pointer() {
    let m = shop();
    let i = at(&m, "Item");
    let c = card(&m, "Item");
    let on = |hit| card_paint(c, i, None, Some(Hover { card: i, row: Some(hit) }), None, false, true);
    assert_eq!(on(RowHit::Implements(0)).wash, Some((c.band.iface_rows_top, 14)));
    assert_eq!(on(RowHit::MemberOfUnion(0)).wash, Some((c.band.union_rows_top, 14)));
    assert_eq!(on(RowHit::Implements(0)).chip, None);
    assert_eq!(on(RowHit::Row(0)).ring, Ring::Hovered);
}

#[test]
fn investigating_shows_what_lacks_a_description() {
    let m = shop();
    let show = |name: &str, detailed| {
        card_paint(card(&m, name), at(&m, name), None, None, None, true, detailed)
    };
    assert!(!show("Item", true).undocumented);
    assert_eq!(show("Item", true).bare_rows, vec![0, 2]);
    assert!(show("Query", true).undocumented);
    assert!(show("Item", false).bare_rows.is_empty(), "too small to read");
    assert!(show("Hit", true).bare_rows.is_empty(), "members have no descriptions");
    assert!(show("Money", true).scalar_note);
    assert!(!show("Money", false).scalar_note);
}

// ── the pointer ──

#[test]
fn a_click_goes_where_the_row_leads() {
    let m = shop();
    let i = at(&m, "Query");
    let c = card(&m, "Query");
    let hit = Hover { card: i, row: Some(RowHit::Row(0)) };
    let item = at(&m, "Item");
    assert_eq!(click_card(&m.graph.nodes, c, hit, true), Click::Center(item));
    assert_eq!(click_card(&m.graph.nodes, c, hit, false), Click::Pin(i, 0));
    assert_eq!(
        click_card(&m.graph.nodes, c, Hover { card: i, row: None }, false),
        Click::Center(i)
    );
    let band = Hover { card: item, row: Some(RowHit::Implements(0)) };
    assert_eq!(
        click_card(&m.graph.nodes, card(&m, "Item"), band, false),
        Click::Center(at(&m, "Node"))
    );
    let union = Hover { card: item, row: Some(RowHit::MemberOfUnion(0)) };
    assert_eq!(
        click_card(&m.graph.nodes, card(&m, "Item"), union, false),
        Click::Center(at(&m, "Hit"))
    );
}

#[test]
fn a_band_without_a_card_leads_nowhere() {
    let m = shop();
    let mut c = card(&m, "Item").clone();
    c.implements = vec!["Elsewhere".to_string()];
    let hit = Hover { card: 0, row: Some(RowHit::Implements(0)) };
    assert_eq!(click_card(&m.graph.nodes, &c, hit, false), Click::Nothing);
}

#[test]
fn a_row_without_a_type_leads_on_from_anywhere() {
    assert_eq!(row_click(Some(3), false, false), RowClick::Navigate(3));
    assert_eq!(row_click(Some(3), true, false), RowClick::Pin);
    assert_eq!(row_click(None, true, true), RowClick::Pin);
}

#[test]
fn only_moves_that_matter_are_shown() {
    let a = Some(Hover { card: 1, row: None });
    let b = Some(Hover { card: 1, row: Some(RowHit::Row(0)) });
    assert!(pointer_moves(a, b, None, None, false));
    assert!(pointer_moves(None, None, Some(1), None, false));
    assert!(pointer_moves(a, a, None, None, true));
    assert!(!pointer_moves(a, a, None, None, false));
    assert!(!pointer_moves(None, None, None, None, true));
}

// ── tooltips and the status line ──

#[test]
fn tooltips_say_what_there_is_to_say() {
    let m = shop();
    let item = card(&m, "Item");
    let tip = tooltip_of(&m.cards, false, &Over::Row(item, 1), None).unwrap();
    assert_eq!(tip.title, "Item.kind: Kind");
    assert_eq!(tip.description.as_deref(), Some("What it is"));
    assert_eq!((tip.deprecation, tip.expired), (None, false));
    assert!(tooltip_of(&m.cards, false, &Over::Row(item, 0), None).is_none(), "nothing to add");
    let price = tooltip_of(&m.cards, false, &Over::Row(item, 2), None).unwrap();
    assert_eq!(price.deprecation.as_deref(), Some("[until 2020-01-01] use cost"));
    assert!(price.expired);
    let old = tooltip_of(&m.cards, false, &Over::Row(card(&m, "Query"), 1), None).unwrap();
    assert!(old.deprecation.is_some());
    let shoe = tooltip_of(&m.cards, false, &Over::Row(card(&m, "Kind"), 1), None).unwrap();
    assert_eq!(shoe.title, "Kind::SHOE");
}

#[test]
fn headers_and_bands_have_tooltips() {
    let m = shop();
    let item = card(&m, "Item");
    let head = tooltip_of(&m.cards, false, &Over::Header(item), None).unwrap();
    assert_eq!(head.title, "type Item");
    assert_eq!(head.description.as_deref(), Some("Something to buy"));
    assert!(tooltip_of(&m.cards, false, &Over::Header(card(&m, "Query")), None).is_none());
    let band = tooltip_of(&m.cards, false, &Over::Implements(item, 0), None).unwrap();
    assert_eq!(band.title, "implements Node");
    let member = tooltip_of(&m.cards, false, &Over::MemberOfUnion(item, 0), None).unwrap();
    assert_eq!(member.title, "member of union Hit");
}

#[test]
fn links_list_what_they_bundle() {
    let m = shop();
    let l = link(&m, "Query", "Item", EdgeGroup::FieldNullable);
    let tip = tooltip_of(&m.cards, false, &Over::Nothing, Some(l)).unwrap();
    assert_eq!(tip.title, "Query → Item  ·  ×2");
    assert_eq!(tip.description.as_deref(), Some("item, old"));
    let mut many = l.clone();
    many.labels = (0..12).map(|i| format!("f{i}")).collect();
    let tip = tooltip_of(&m.cards, false, &Over::Nothing, Some(&many)).unwrap();
    assert_eq!(
        tip.description.as_deref(),
        Some("f0, f1, f2, f3, f4, f5, f6, f7, f8, f9 … +2")
    );
    assert_eq!(tip.title, "Query → Item  ·  ×12");
}

#[test]
fn dragging_hides_the_tooltip_of_a_card() {
    let m = shop();
    let over = Over::Header(card(&m, "Item"));
    assert!(tooltip_of(&m.cards, true, &over, None).is_none());
    let l = link(&m, "Query", "Item", EdgeGroup::FieldNullable);
    assert!(tooltip_of(&m.cards, true, &over, Some(l)).is_some());
}

#[test]
fn the_status_line_lists_what_is_known() {
    let m = shop();
    assert_eq!(
        status_line("shop", 6, 7, "100", 0, None, None, &Over::Nothing),
        "shop  ·  6 types  ·  7 edges  ·  100%"
    );
    assert_eq!(
        status_line("s", 1, 0, "50", 2, Some("1.5"), Some((1, 3)), &Over::Header(card(&m, "Item"))),
        "s  ·  1 types  ·  0 edges  ·  50%  ·  overlay +2  ·  1.5ms  ·  desc 1/3 (33%)   —   type Item"
    );
    assert_eq!(
        status_line("s", 1, 0, "50", 0, None, Some((0, 0)), &Over::Row(card(&m, "Item"), 1)),
        "s  ·  1 types  ·  0 edges  ·  50%  ·  desc 0/0 (100%)   —   Item.kind: Kind   “What it is”"
    );
}

#[test]
fn long_descriptions_are_cut_in_the_status_line() {
    let m = shop();
    let mut c = card(&m, "Item").clone();
    c.rows[1].description = Some("word ".repeat(40));
    let line = status_line("s", 1, 0, "1", 0, None, None, &Over::Row(&c, 1));
    assert!(line.ends_with("…”"), "{line}");
    assert_eq!(line.split('“').nth(1).unwrap().chars().count(), 120 + 2);
}

#[test]
fn a_field_path_names_type_and_field() {
    let m = shop();
    assert_eq!(field_path(card(&m, "Item"), 2), "Item.price");
}

// ── the trail ──

#[test]
fn going_back_leads_through_the_cards_before() {
    let mut t = Trail::new();
    for c in [1, 2, 2, 3] {
        t.center_on(c);
    }
    assert_eq!(t.history, vec![1, 2]);
    assert_eq!(t.history_entries(), vec![2, 1]);
    assert_eq!(t.go_back(), Some(2));
    t.center_on(2);
    assert_eq!((t.focus, t.history.clone()), (Some(2), vec![1]));
    assert_eq!(t.go_back(), Some(1));
    t.center_on(1);
    assert_eq!(t.go_back(), None);
    t.reset();
    assert_eq!(t, Trail::new());
}

#[test]
fn the_trail_forgets_the_oldest_step() {
    let mut t = Trail::new();
    for c in 0..70 {
        t.center_on(c);
    }
    assert_eq!(t.history.len(), 64);
    assert_eq!(t.history[0], 5);
    assert_eq!(t.history_entries(), vec![68, 67, 66, 65, 64, 63, 62, 61]);
}

// ── themes ──

#[test]
fn the_toggle_comes_back_after_three_steps() {
    let m = ThemeMode::Light;
    assert_eq!(m.next(), ThemeMode::Dark);
    assert_eq!(m.next().next(), ThemeMode::System);
    assert_eq!(m.next().next().next(), m);
    assert_eq!(
        [m.label(), m.next().label(), m.next().next().label()],
        ["Light", "Dark", "System"]
    );
}

#[test]
fn without_a_choice_the_system_decides() {
    assert_eq!(ThemeState::default().mode(), ThemeMode::System);
    assert_eq!(ThemeState(Some(ThemeMode::Dark)).mode(), ThemeMode::Dark);
    assert_eq!(theme_for(ThemeMode::System, true), light());
    assert_eq!(theme_for(ThemeMode::System, false), dark());
    assert_eq!(theme_for(ThemeMode::Light, false), light());
    assert_eq!(theme_for(ThemeMode::Dark, true), dark());
}

#[test]
fn kinds_look_alike_in_both_palettes() {
    let kinds = [
        NodeKind::Object,
        NodeKind::Interface,
        NodeKind::Union,
        NodeKind::Enum,
        NodeKind::Input,
        NodeKind::Scalar,
    ];
    for k in kinds {
        assert_eq!(dark().kind_color(k), light().kind_color(k));
    }
    assert_eq!(dark().bg, 0x0a0a0aff);
    assert_eq!(light().bg, 0xfafaf9ff);
    assert_eq!(light().chrome_bg, 0xfffffff0);
}
