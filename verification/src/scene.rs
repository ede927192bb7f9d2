//! What the canvas paints: which links are dimmed, how a row is colored, which rings and washes a
//! card gets, and what a click does.

use vstd::prelude::*;

use crate::cards::{
    card_index, index_of, Card, CardModel, Row, RowHit, RowKind, RowModel, TypeColor, TIGHT_ROW_H,
};
use crate::model::{EdgeGroup, Link, LinkModel};
use crate::theme::Palette;
use crate::trail::{click_on, row_click, RowClick};
use crate::types::{GraphNodeData, NodeKind, NodeModel};

verus! {

/// What the pointer is over: a card, and a row of it; without a row its header.
#[derive(Debug, Clone, Copy, PartialEq, Eq, Structural)]
pub struct Hover {
    pub card: u32,
    pub row: Option<RowHit>,
}

// ── links ──────────────────────────────────────────────────────────────────

/// With a focus, every link that does not touch the focused card is dimmed; without one, those of
/// hubs.
pub open spec fn dims(focus: Option<u32>, l: LinkModel) -> bool {
    match focus {
        Some(f) => l.from != f && l.to != f,
        None => l.hub_faded,
    }
}

/// Whether a link is dimmed.
pub fn is_dimmed(focus: Option<u32>, link: &Link) -> (r: bool)
    ensures
        r == dims(focus, link.deep_view()),
{
    match focus {
        Some(f) => link.from != f && link.to != f,
        None => link.hub_faded,
    }
}

/// The link at `i` is painted in the pass for the group and for dimmed or bright links. The link
/// under the pointer is painted on its own.
pub open spec fn in_pass(
    links: Seq<LinkModel>,
    i: int,
    group: EdgeGroup,
    dim: bool,
    focus: Option<u32>,
    hovered: Option<usize>,
) -> bool {
    &&& links[i].group == group
    &&& hovered != Some(i as usize)
    &&& dims(focus, links[i]) == dim
}

/// The links among the first `n` that are painted in a pass.
pub open spec fn pass_links(
    links: Seq<LinkModel>,
    group: EdgeGroup,
    dim: bool,
    focus: Option<u32>,
    hovered: Option<usize>,
    n: nat,
) -> Seq<usize>
    decreases n,
{
    if n == 0 {
        Seq::empty()
    } else {
        let before = pass_links(links, group, dim, focus, hovered, (n - 1) as nat);
        if in_pass(links, n - 1, group, dim, focus, hovered) {
            before.push((n - 1) as usize)
        } else {
            before
        }
    }
}

fn same_group(a: EdgeGroup, b: EdgeGroup) -> (r: bool)
    ensures
        r == (a == b),
{
    a == b
}

/// The links that are painted in a pass, in order.
pub fn links_in_pass(
    links: &Vec<Link>,
    group: EdgeGroup,
    dim: bool,
    focus: Option<u32>,
    hovered: Option<usize>,
) -> (r: Vec<usize>)
    ensures
        r@ == pass_links(links.deep_view(), group, dim, focus, hovered, links@.len()),
{
    let ghost all = links.deep_view();
    let count: usize = links.len();
    let mut out: Vec<usize> = Vec::new();
    let mut i: usize = 0;
    while i < count
        invariant
            i <= count == links@.len(),
            all == links.deep_view(),
            out@ == pass_links(all, group, dim, focus, hovered, i as nat),
        decreases count - i,
    {
        assert(all[i as int] == links@[i as int].deep_view());
        let under: bool = match hovered {
            Some(h) => h == i,
            None => false,
        };
        if same_group(links[i].group, group) && !under && is_dimmed(focus, &links[i]) == dim {
            out.push(i);
        }
        i = i + 1;
    }
    out
}

/// The passes hold what belongs to them and nothing else.
proof fn lemma_pass_holds(
    links: Seq<LinkModel>,
    group: EdgeGroup,
    dim: bool,
    focus: Option<u32>,
    hovered: Option<usize>,
    n: nat,
    i: int,
)
    requires
        n <= links.len() <= usize::MAX,
        0 <= i < links.len(),
    ensures
        pass_links(links, group, dim, focus, hovered, n).contains(i as usize) <==> i < n && in_pass(
            links,
            i,
            group,
            dim,
            focus,
            hovered,
        ),
    decreases n,
{
    if n > 0 {
        lemma_pass_holds(links, group, dim, focus, hovered, (n - 1) as nat, i);
        let before = pass_links(links, group, dim, focus, hovered, (n - 1) as nat);
        let now = pass_links(links, group, dim, focus, hovered, n);
        if in_pass(links, n - 1, group, dim, focus, hovered) {
            assert(now.last() == (n - 1) as usize);
            if before.contains(i as usize) {
                let j = choose|j: int| 0 <= j < before.len() && before[j] == i as usize;
                assert(now[j] == i as usize);
            }
            if now.contains(i as usize) && i != n - 1 {
                let j = choose|j: int| 0 <= j < now.len() && now[j] == i as usize;
                assert(before[j] == i as usize);
            }
        }
    }
}

/// Every link but the one under the pointer is painted in one pass alone: that of its own group, and
/// of its own brightness.
pub proof fn links_are_painted_once(
    links: Seq<LinkModel>,
    focus: Option<u32>,
    hovered: Option<usize>,
    i: int,
    group: EdgeGroup,
    dim: bool,
)
    requires
        links.len() <= usize::MAX,
        0 <= i < links.len(),
    ensures
        pass_links(links, group, dim, focus, hovered, links.len()).contains(i as usize) <==> (hovered
            != Some(i as usize) && group == links[i].group && dim == dims(focus, links[i])),
{
    lemma_pass_holds(links, group, dim, focus, hovered, links.len(), i);
}

/// The color of a link.
pub open spec fn color_of_group(p: Palette, group: EdgeGroup) -> u32 {
    match group {
        EdgeGroup::FieldNonNull | EdgeGroup::FieldNullable => p.kind_object,
        EdgeGroup::Union => p.kind_union,
        EdgeGroup::Implements => p.kind_interface,
        EdgeGroup::Arg => p.arg_orange,
    }
}

/// How much of its color a link shows, in percent.
pub open spec fn share_of_group(group: EdgeGroup) -> u32 {
    match group {
        EdgeGroup::FieldNullable => 45,
        EdgeGroup::Implements | EdgeGroup::Arg => 55,
        EdgeGroup::FieldNonNull | EdgeGroup::Union => 85,
    }
}

/// The color of a link and how much of it shows, in percent.
pub fn edge_color(p: &Palette, group: EdgeGroup) -> (r: (u32, u32))
    ensures
        r == (color_of_group(*p, group), share_of_group(group)),
{
    match group {
        EdgeGroup::FieldNonNull => (p.kind_color(NodeKind::Object), 85),
        EdgeGroup::FieldNullable => (p.kind_color(NodeKind::Object), 45),
        EdgeGroup::Union => (p.kind_color(NodeKind::Union), 85),
        EdgeGroup::Implements => (p.kind_color(NodeKind::Interface), 55),
        EdgeGroup::Arg => (p.arg_orange, 55),
    }
}

// ── rows ───────────────────────────────────────────────────────────────────

/// Which color of the palette a text takes.
#[derive(Debug, Clone, Copy, PartialEq, Eq, Structural)]
pub enum Tone {
    Text,
    Muted,
    Expired,
    Builtin,
    Type,
    /// That of object types.
    Member,
}

/// How a body row is painted.
#[derive(Debug, Clone, Copy, PartialEq, Eq, Structural)]
pub struct RowPaint {
    pub name: Tone,
    /// Deprecated, with its sunset date still to come or none: drawn pale.
    pub faded: bool,
    pub struck: bool,
    /// The tone of the right-aligned type, where there is one.
    pub kind: Option<Tone>,
    /// A chain glyph before the type: it was unwrapped through a Relay connection.
    pub chain: bool,
    /// A tick at the left edge: the row came from the overlay.
    pub tick: bool,
}

/// The tone of a return type.
pub open spec fn type_tone(color: TypeColor) -> Tone {
    match color {
        TypeColor::Expired => Tone::Expired,
        TypeColor::BuiltinScalar => Tone::Builtin,
        TypeColor::Normal => Tone::Type,
    }
}

/// How a body row is painted. A field is struck out where it is deprecated, and pale until its
/// sunset date has passed; an enum value is struck out only when that date has passed and is never
/// pale; a member of a union is painted as an object type.
pub open spec fn paint_of(r: RowModel) -> RowPaint {
    match r.kind {
        RowKind::Field => RowPaint {
            name: if r.until_expired {
                Tone::Expired
            } else {
                Tone::Text
            },
            faded: r.deprecated && !r.until_expired,
            struck: r.deprecated,
            kind: if r.right.len() == 0 {
                None
            } else {
                Some(type_tone(r.type_color))
            },
            chain: r.right.len() > 0 && r.is_relay,
            tick: r.is_overlay,
        },
        RowKind::EnumValue => RowPaint {
            name: if r.until_expired {
                Tone::Expired
            } else {
                Tone::Muted
            },
            faded: false,
            struck: r.until_expired,
            kind: None,
            chain: false,
            tick: r.is_overlay,
        },
        RowKind::UnionMember => RowPaint {
            name: Tone::Member,
            faded: false,
            struck: false,
            kind: None,
            chain: false,
            tick: r.is_overlay,
        },
    }
}

/// How a body row is painted.
pub fn row_paint(row: &Row) -> (r: RowPaint)
    ensures
        r == paint_of(row.deep_view()),
{
    let expired: bool = row.until_expired;
    match row.kind {
        RowKind::Field => {
            let typed: bool = row.right.as_str().unicode_len() > 0;
            let tone: Tone = match row.type_color {
                TypeColor::Expired => Tone::Expired,
                TypeColor::BuiltinScalar => Tone::Builtin,
                TypeColor::Normal => Tone::Type,
            };
            RowPaint {
                name: if expired { Tone::Expired } else { Tone::Text },
                faded: row.deprecated && !expired,
                struck: row.deprecated,
                kind: if typed { Some(tone) } else { None },
                chain: typed && row.is_relay,
                tick: row.is_overlay,
            }
        },
        RowKind::EnumValue => RowPaint {
            name: if expired { Tone::Expired } else { Tone::Muted },
            faded: false,
            struck: expired,
            kind: None,
            chain: false,
            tick: row.is_overlay,
        },
        RowKind::UnionMember => RowPaint {
            name: Tone::Member,
            faded: false,
            struck: false,
            kind: None,
            chain: false,
            tick: row.is_overlay,
        },
    }
}

impl Palette {
    /// The color of a tone.
    pub open spec fn color_of_tone(self, tone: Tone) -> u32 {
        match tone {
            Tone::Text => self.text,
            Tone::Muted => self.text_muted,
            Tone::Expired => self.expired,
            Tone::Builtin => self.type_builtin,
            Tone::Type => self.type_amber,
            Tone::Member => self.kind_object,
        }
    }

    /// The color of a tone.
    pub fn tone_color(self, tone: Tone) -> (r: u32)
        ensures
            r == self.color_of_tone(tone),
    {
        match tone {
            Tone::Text => self.text,
            Tone::Muted => self.text_muted,
            Tone::Expired => self.expired,
            Tone::Builtin => self.type_builtin,
            Tone::Type => self.type_amber,
            Tone::Member => self.kind_object,
        }
    }
}

// ── cards ──────────────────────────────────────────────────────────────────

/// The ring around a card.
#[derive(Debug, Clone, Copy, PartialEq, Eq, Structural)]
pub enum Ring {
    Nothing,
    Hovered,
    Focused,
}

/// What is painted on a card besides its own content.
#[derive(Debug, PartialEq, Eq)]
pub struct CardPaint {
    /// Another card has the focus.
    pub dimmed: bool,
    pub ring: Ring,
    /// A scalar without rows says so in its body.
    pub scalar_note: bool,
    /// Outlined in investigate mode: the type has no description.
    pub undocumented: bool,
    /// The rows without a description, in investigate mode.
    pub bare_rows: Vec<usize>,
    pub pinned: Option<usize>,
    /// Top and height of the wash under the pointer.
    pub wash: Option<(u64, u64)>,
    /// The row whose return type is framed.
    pub chip: Option<usize>,
}

/// The ring around the card `i`.
pub open spec fn ring_of(i: u32, focus: Option<u32>, hover: Option<Hover>) -> Ring {
    if focus == Some(i) {
        Ring::Focused
    } else if hover is Some && hover->0.card == i {
        Ring::Hovered
    } else {
        Ring::Nothing
    }
}

/// A row that could have a description has none.
pub open spec fn is_bare(r: RowModel) -> bool {
    (r.kind == RowKind::Field || r.kind == RowKind::EnumValue) && r.description is None
}

/// The rows among the first `n` that lack a description.
pub open spec fn bare_rows(rows: Seq<RowModel>, n: nat) -> Seq<usize>
    decreases n,
{
    if n == 0 {
        Seq::empty()
    } else {
        let before = bare_rows(rows, (n - 1) as nat);
        if is_bare(rows[n - 1]) {
            before.push((n - 1) as usize)
        } else {
            before
        }
    }
}

/// Top and height of a row of the card.
pub open spec fn row_span(c: CardModel, hit: RowHit) -> (int, int) {
    match hit {
        RowHit::Row(r) => (c.top_of_row(r as int), c.grid_pitch()),
        RowHit::Implements(b) => (c.band.iface_rows_top + b * 14, 14),
        RowHit::MemberOfUnion(b) => (c.band.union_rows_top + b * 14, 14),
    }
}

/// The hit is one of the card's rows.
pub open spec fn has_row(c: CardModel, hit: RowHit) -> bool {
    match hit {
        RowHit::Row(r) => r < c.rows.len(),
        RowHit::Implements(b) => b < c.implements.len(),
        RowHit::MemberOfUnion(b) => b < c.member_of_unions.len(),
    }
}

/// The row of the card `i` that the pointer is over.
pub open spec fn row_under(i: u32, hover: Option<Hover>) -> Option<RowHit> {
    if hover is Some && hover->0.card == i {
        hover->0.row
    } else {
        None
    }
}

/// What is painted on the card `i`; `detailed` says whether its rows are large enough to read.
pub open spec fn card_painted(
    c: CardModel,
    i: u32,
    focus: Option<u32>,
    hover: Option<Hover>,
    pinned: Option<(u32, usize)>,
    investigate: bool,
    detailed: bool,
    p: CardPaint,
) -> bool {
    &&& p.dimmed == (focus is Some && focus != Some(i))
    &&& p.ring == ring_of(i, focus, hover)
    &&& p.scalar_note == (detailed && c.kind == NodeKind::Scalar && c.rows.len() == 0)
    &&& p.undocumented == (investigate && c.description is None)
    &&& p.bare_rows@ == if investigate && detailed {
        bare_rows(c.rows, c.rows.len())
    } else {
        Seq::empty()
    }
    &&& p.pinned == (match pinned {
        Some((card, row)) => if card == i && row < c.rows.len() {
            Some(row)
        } else {
            None
        },
        None => None,
    })
    &&& (match row_under(i, hover) {
        Some(hit) => p.wash matches Some((top, height)) && (top as int, height as int) == row_span(
            c,
            hit,
        ),
        None => p.wash is None,
    })
    &&& p.chip == (match row_under(i, hover) {
        Some(RowHit::Row(r)) => if detailed && c.rows[r as int].right.len() > 0 {
            Some(r)
        } else {
            None
        },
        _ => None,
    })
}

fn list_bare_rows(card: &Card) -> (r: Vec<usize>)
    ensures
        r@ == bare_rows(card.deep_view().rows, card.rows@.len()),
{
    let ghost all = card.deep_view().rows;
    let count: usize = card.rows.len();
    let mut out: Vec<usize> = Vec::new();
    let mut i: usize = 0;
    while i < count
        invariant
            i <= count == card.rows@.len(),
            all == card.deep_view().rows,
            out@ == bare_rows(all, i as nat),
        decreases count - i,
    {
        assert(all[i as int] == card.rows@[i as int].deep_view());
        let row = &card.rows[i];
        let describable: bool = match row.kind {
            RowKind::Field => true,
            RowKind::EnumValue => true,
            RowKind::UnionMember => false,
        };
        if describable && row.description.is_none() {
            out.push(i);
        }
        i = i + 1;
    }
    out
}

fn span_of(card: &Card, hit: RowHit) -> (r: (u64, u64))
    requires
        card.is_drawable(),
        card.implements@.len() <= u32::MAX,
        card.member_of_unions@.len() <= u32::MAX,
        has_row(card.deep_view(), hit),
    ensures
        (r.0 as int, r.1 as int) == row_span(card.deep_view(), hit),
{
    assert(card.deep_view().rows.len() == card.rows@.len());
    assert(card.deep_view().implements.len() == card.implements@.len());
    assert(card.deep_view().member_of_unions.len() == card.member_of_unions@.len());
    match hit {
        RowHit::Row(r) => (card.row_y(r), card.body_pitch()),
        RowHit::Implements(b) => (card.band.iface_rows_top + b as u64 * TIGHT_ROW_H, TIGHT_ROW_H),
        RowHit::MemberOfUnion(b) => (
            card.band.union_rows_top + b as u64 * TIGHT_ROW_H,
            TIGHT_ROW_H,
        ),
    }
}

/// What is painted on the card `i` besides its own content.
pub fn card_paint(
    card: &Card,
    i: u32,
    focus: Option<u32>,
    hover: Option<Hover>,
    pinned: Option<(u32, usize)>,
    investigate: bool,
    detailed: bool,
) -> (r: CardPaint)
    requires
        card.is_drawable(),
        card.implements@.len() <= u32::MAX,
        card.member_of_unions@.len() <= u32::MAX,
        row_under(i, hover) matches Some(hit) ==> has_row(card.deep_view(), hit),
    ensures
        card_painted(
            card.deep_view(),
            i,
            focus,
            hover,
            pinned,
            investigate,
            detailed,
            r,
        ),
{
    assert(card.deep_view().rows.len() == card.rows@.len());
    let focused: bool = match focus {
        Some(f) => f == i,
        None => false,
    };
    let under: Option<RowHit> = match hover {
        Some(h) => if h.card == i {
            h.row
        } else {
            None
        },
        None => None,
    };
    let hovered: bool = match hover {
        Some(h) => h.card == i,
        None => false,
    };
    let scalar: bool = match card.kind {
        NodeKind::Scalar => true,
        _ => false,
    };
    CardPaint {
        dimmed: focus.is_some() && !focused,
        ring: if focused {
            Ring::Focused
        } else if hovered {
            Ring::Hovered
        } else {
            Ring::Nothing
        },
        scalar_note: detailed && scalar && card.rows.len() == 0,
        undocumented: investigate && card.description.is_none(),
        bare_rows: if investigate && detailed {
            list_bare_rows(card)
        } else {
            Vec::new()
        },
        pinned: match pinned {
            Some((c, row)) => if c == i && row < card.rows.len() {
                Some(row)
            } else {
                None
            },
            None => None,
        },
        wash: match under {
            Some(hit) => Some(span_of(card, hit)),
            None => None,
        },
        chip: match under {
            Some(RowHit::Row(r)) => {
                assert(card.deep_view().rows[r as int] == card.rows@[r as int].deep_view());
                if detailed && card.rows[r].right.as_str().unicode_len() > 0 {
                    Some(r)
                } else {
                    None
                }
            },
            _ => None,
        },
    }
}

// ── the pointer ────────────────────────────────────────────────────────────

fn same_hit(a: RowHit, b: RowHit) -> (r: bool)
    ensures
        r == (a == b),
{
    match (a, b) {
        (RowHit::Row(x), RowHit::Row(y)) => x == y,
        (RowHit::Implements(x), RowHit::Implements(y)) => x == y,
        (RowHit::MemberOfUnion(x), RowHit::MemberOfUnion(y)) => x == y,
        _ => false,
    }
}

fn same_hover(a: Option<Hover>, b: Option<Hover>) -> (r: bool)
    ensures
        r == (a == b),
{
    match (a, b) {
        (Some(x), Some(y)) => x.card == y.card && (match (x.row, y.row) {
            (Some(p), Some(q)) => same_hit(p, q),
            (None, None) => true,
            _ => false,
        }),
        (None, None) => true,
        _ => false,
    }
}

fn same_link(a: Option<u32>, b: Option<u32>) -> (r: bool)
    ensures
        r == (a == b),
{
    match (a, b) {
        (Some(x), Some(y)) => x == y,
        (None, None) => true,
        _ => false,
    }
}

/// Whether a move of the pointer has to be shown: it came to something else, or it moved a little
/// over something whose tooltip follows it.
pub fn pointer_moves(
    hover: Option<Hover>,
    was_hover: Option<Hover>,
    link: Option<u32>,
    was_link: Option<u32>,
    moved: bool,
) -> (r: bool)
    ensures
        r == (hover != was_hover || link != was_link || ((hover is Some || link is Some) && moved)),
{
    !same_hover(hover, was_hover) || !same_link(link, was_link) || ((hover.is_some()
        || link.is_some()) && moved)
}

/// What a click on the canvas does.
#[derive(Debug, Clone, Copy, PartialEq, Eq, Structural)]
pub enum Click {
    Nothing,
    /// Bring the card to the middle.
    Center(u32),
    /// Pin the row of the card, and focus that card.
    Pin(u32, usize),
}

/// What a click on a card does: on its header it brings the card to the middle, on a body row it
/// goes where the row leads or pins it, and on the name of an interface or a union it goes there.
pub open spec fn click_of(
    nodes: Seq<NodeModel>,
    c: CardModel,
    hit: Hover,
    on_type: bool,
) -> Click {
    match hit.row {
        None => Click::Center(hit.card),
        Some(RowHit::Row(i)) => match click_on(
            c.rows[i as int].target,
            c.rows[i as int].right.len() > 0,
            on_type,
        ) {
            RowClick::Navigate(t) => Click::Center(t),
            RowClick::Pin => Click::Pin(hit.card, i),
        },
        Some(RowHit::Implements(b)) => match card_index(nodes, c.implements[b as int]) {
            Some(t) => Click::Center(t),
            None => Click::Nothing,
        },
        Some(RowHit::MemberOfUnion(b)) => match card_index(nodes, c.member_of_unions[b as int]) {
            Some(t) => Click::Center(t),
            None => Click::Nothing,
        },
    }
}

fn go_to(nodes: &Vec<GraphNodeData>, name: &str) -> (r: Click)
    requires
        nodes@.len() <= u32::MAX,
    ensures
        r == (match card_index(nodes.deep_view(), name@) {
            Some(t) => Click::Center(t),
            None => Click::Nothing,
        }),
{
    match index_of(nodes, name) {
        Some(t) => Click::Center(t),
        None => Click::Nothing,
    }
}

/// What a click on a card does; `on_type` says whether it fell on the right-aligned type of a row.
pub fn click_card(nodes: &Vec<GraphNodeData>, card: &Card, hit: Hover, on_type: bool) -> (r: Click)
    requires
        nodes@.len() <= u32::MAX,
        hit.row matches Some(at) ==> has_row(card.deep_view(), at),
    ensures
        r == click_of(nodes.deep_view(), card.deep_view(), hit, on_type),
{
    assert(card.deep_view().rows.len() == card.rows@.len());
    assert(card.deep_view().implements.len() == card.implements@.len());
    assert(card.deep_view().member_of_unions.len() == card.member_of_unions@.len());
    match hit.row {
        None => Click::Center(hit.card),
        Some(RowHit::Row(i)) => {
            let row = &card.rows[i];
            assert(card.deep_view().rows[i as int] == row.deep_view());
            match row_click(row.target, row.right.as_str().unicode_len() > 0, on_type) {
                RowClick::Navigate(t) => Click::Center(t),
                RowClick::Pin => Click::Pin(hit.card, i),
            }
        },
        Some(RowHit::Implements(b)) => {
            assert(card.deep_view().implements[b as int] == card.implements@[b as int]@);
            go_to(nodes, card.implements[b].as_str())
        },
        Some(RowHit::MemberOfUnion(b)) => {
            assert(card.deep_view().member_of_unions[b as int]
                == card.member_of_unions@[b as int]@);
            go_to(nodes, card.member_of_unions[b].as_str())
        },
    }
}

} // verus!
