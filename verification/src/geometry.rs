//! Vertical geometry of cards. What the painter draws and what a click hits are stated over the
//! same numbers.

use vstd::prelude::*;

use crate::cards::{
    can_number, lemma_weight, line_of, make_line, make_rows, no_band, row_map_of, rows_of, BandGeom,
    BandModel, Card, CardModel, KnobModel, ModelOptions, RowHit, BOTTOM_PAD, HEADER_H,
    HEADER_H_WITH_DESC, IMPL_SECTION_GAP, ROW_H, ROW_H_WITH_DESC, TIGHT_ROW_H, TOP_BODY_PAD,
};
use crate::copies::Duplicate;
use crate::extensions::or_empty;
use crate::types::{GraphNodeData, NodeKind, NodeModel};

verus! {

/// The word for a kind on a sidebar badge.
pub fn kind_label(kind: NodeKind) -> (r: &'static str)
    ensures
        r@ == kind.keyword(),
{
    kind.sdl_keyword()
}

/// The word for a kind in capitals.
pub open spec fn upper_name(kind: NodeKind) -> Seq<char> {
    match kind {
        NodeKind::Object => "OBJECT"@,
        NodeKind::Interface => "INTERFACE"@,
        NodeKind::Union => "UNION"@,
        NodeKind::Enum => "ENUM"@,
        NodeKind::Scalar => "SCALAR"@,
        NodeKind::Input => "INPUT"@,
    }
}

/// The word for a kind in a card's header.
pub fn kind_upper(kind: NodeKind) -> (r: &'static str)
    ensures
        r@ == upper_name(kind),
{
    match kind {
        NodeKind::Object => "OBJECT",
        NodeKind::Interface => "INTERFACE",
        NodeKind::Union => "UNION",
        NodeKind::Enum => "ENUM",
        NodeKind::Scalar => "SCALAR",
        NodeKind::Input => "INPUT",
    }
}

// ── heights ────────────────────────────────────────────────────────────────

/// The row pitch.
pub open spec fn pitch(shown: bool) -> int {
    if shown {
        26
    } else {
        14
    }
}

/// The height of the header.
pub open spec fn header_height(shown: bool) -> int {
    if shown {
        56
    } else {
        42
    }
}

/// Types that have trailing bands.
pub open spec fn has_bands(kind: NodeKind) -> bool {
    kind == NodeKind::Object || kind == NodeKind::Interface
}

/// The rows of the main grid: none for a union, whose rows are tight.
pub open spec fn grid_fields(kind: NodeKind, rows: int) -> int {
    if kind == NodeKind::Union {
        0
    } else {
        rows
    }
}

/// The height of the body: a union has only tight rows, a scalar one empty row, any other type its
/// rows and then the tight rows of both bands, and one empty row where it has none.
pub open spec fn body_height(kind: NodeKind, shown: bool, rows: int, trailing: int) -> int {
    let grid = if kind == NodeKind::Union || kind == NodeKind::Scalar {
        0
    } else {
        rows
    };
    let tight = if kind == NodeKind::Union {
        rows
    } else if kind == NodeKind::Scalar {
        0
    } else {
        trailing
    };
    if grid == 0 && tight == 0 {
        pitch(shown)
    } else {
        grid * pitch(shown) + tight * 14
    }
}

/// The height of a card with `rows` body rows, `ifaces` implemented interfaces and `unions` unions
/// that it is a member of.
pub open spec fn card_height(
    kind: NodeKind,
    shown: bool,
    rows: int,
    ifaces: int,
    unions: int,
) -> int {
    let fields = grid_fields(kind, rows);
    let impl_gap: int = if has_bands(kind) && ifaces > 0 && fields > 0 {
        8
    } else {
        0
    };
    let union_gap: int = if kind == NodeKind::Object && unions > 0 && ifaces == 0 && fields > 0 {
        8
    } else {
        0
    };
    header_height(shown) + 8 + body_height(kind, shown, rows, ifaces + unions) + impl_gap
        + union_gap + 10
}

/// The larger of `x` and zero.
pub open spec fn not_below_zero(x: int) -> int {
    if x < 0 {
        0
    } else {
        x
    }
}

/// The trailing bands of a card of height `h` with `fields` rows in its grid: the first starts below
/// the grid, each takes half of what is left over, and the rows of each stand in its middle.
pub open spec fn band_of(
    kind: NodeKind,
    h: int,
    shown: bool,
    fields: int,
    ifaces: int,
    unions: int,
) -> BandModel {
    if !has_bands(kind) || (ifaces == 0 && unions == 0) {
        no_band()
    } else {
        let gap: int = if fields > 0 {
            8
        } else {
            0
        };
        let top = header_height(shown) + 8 + fields * pitch(shown) - 2 + gap;
        let extra = not_below_zero(h - top - ifaces * 14 - unions * 14);
        let bottom = if ifaces == 0 {
            top
        } else if unions == 0 {
            h
        } else {
            top + ifaces * 14 + extra / 2
        };
        BandModel {
            iface_band_top: top,
            iface_band_bottom: bottom,
            iface_rows_top: top + not_below_zero(bottom - top - ifaces * 14) / 2,
            union_band_top: bottom,
            union_rows_top: bottom + not_below_zero(h - bottom - unions * 14) / 2,
        }
    }
}

/// Heights are even, so that their halves are whole.
pub proof fn heights_are_even(kind: NodeKind, shown: bool, rows: int, ifaces: int, unions: int)
    ensures
        card_height(kind, shown, rows, ifaces, unions) % 2 == 0,
{
    assert(rows * 26 % 2 == 0 && rows * 14 % 2 == 0);
    assert((ifaces + unions) * 14 % 2 == 0);
}

/// The card of node `i`.
pub open spec fn card_of(nodes: Seq<NodeModel>, i: int, knobs: KnobModel) -> CardModel {
    let n = nodes[i];
    let rows = rows_of(nodes, n, knobs);
    let ifaces = or_empty(n.interfaces);
    let unions = or_empty(n.member_of_unions);
    let h = card_height(
        n.kind,
        knobs.show_descriptions,
        rows.len() as int,
        ifaces.len() as int,
        unions.len() as int,
    );
    CardModel {
        index: i,
        name: n.name,
        kind: n.kind,
        kind_label: n.kind.keyword(),
        kind_upper: upper_name(n.kind),
        description: n.description,
        header_desc: if knobs.show_descriptions {
            line_of(n.description)
        } else {
            None
        },
        rows,
        implements: ifaces,
        member_of_unions: unions,
        h,
        row_h: pitch(knobs.show_descriptions),
        header_h: header_height(knobs.show_descriptions),
        band: band_of(
            n.kind,
            h,
            knobs.show_descriptions,
            grid_fields(n.kind, rows.len() as int),
            ifaces.len() as int,
            unions.len() as int,
        ),
        is_overlay: n.is_overlay,
        row_map: row_map_of(n, knobs),
    }
}

/// The cards of the nodes, in order.
pub open spec fn cards_of(nodes: Seq<NodeModel>, knobs: KnobModel) -> Seq<CardModel> {
    Seq::new(nodes.len(), |i: int| card_of(nodes, i, knobs))
}

// ── positions on a card ────────────────────────────────────────────────────

impl CardModel {
    /// Top of the body row grid.
    pub open spec fn top(self) -> int {
        self.header_h + 8 - 2
    }

    /// Pitch of the body rows: union members are always tight.
    pub open spec fn grid_pitch(self) -> int {
        if self.kind == NodeKind::Union {
            14
        } else {
            self.row_h
        }
    }

    /// Top of body row `i`.
    pub open spec fn top_of_row(self, i: int) -> int {
        self.top() + i * self.grid_pitch()
    }

    /// What stands at height `y`. The trailing rows are asked first; they lie below the body rows.
    pub open spec fn hit(self, inside: bool, y: int) -> Option<RowHit> {
        let in_unions = (y - self.band.union_rows_top) / 14;
        let in_ifaces = (y - self.band.iface_rows_top) / 14;
        let in_rows = (y - self.top()) / self.grid_pitch();
        if !inside || y < self.top() {
            None
        } else if self.member_of_unions.len() > 0 && y >= self.band.union_rows_top && in_unions
            < self.member_of_unions.len() {
            Some(RowHit::MemberOfUnion(in_unions as usize))
        } else if self.implements.len() > 0 && y >= self.band.iface_rows_top && in_ifaces
            < self.implements.len() {
            Some(RowHit::Implements(in_ifaces as usize))
        } else if in_rows < self.rows.len() {
            Some(RowHit::Row(in_rows as usize))
        } else {
            None
        }
    }

    /// The display row of a graph row.
    pub open spec fn shown_row(self, graph_row: int) -> Option<u32> {
        if graph_row < self.row_map.len() {
            self.row_map[graph_row]
        } else {
            None
        }
    }

    /// Where a link leaves the card: the middle of the row of its field, or of the card where the
    /// field has none.
    pub open spec fn port(self, field_index: Option<usize>) -> int {
        match field_index {
            Some(f) => match self.shown_row(f as int) {
                Some(i) => if i < self.rows.len() {
                    self.top_of_row(i as int) + self.grid_pitch() / 2
                } else {
                    self.h / 2
                },
                None => self.h / 2,
            },
            None => self.h / 2,
        }
    }
}

impl Card {
    /// Positions on the card stay within 64 bits.
    pub open spec fn is_drawable(self) -> bool {
        &&& 1 <= self.row_h <= 26
        &&& self.header_h <= 56
        &&& self.rows@.len() <= u32::MAX
        &&& self.h < 0x1_0000_0000_0000
        &&& self.band.iface_rows_top < 0x1_0000_0000_0000
        &&& self.band.union_rows_top < 0x1_0000_0000_0000
    }

    /// Top of the body row grid.
    pub fn body_top(&self) -> (r: u64)
        requires
            self.is_drawable(),
        ensures
            r == self.deep_view().top(),
            r <= 62,
    {
        self.header_h + TOP_BODY_PAD - 2
    }

    /// Pitch of the body rows: union members are always tight.
    pub fn body_pitch(&self) -> (r: u64)
        requires
            self.is_drawable(),
        ensures
            r == self.deep_view().grid_pitch(),
            1 <= r <= 26,
    {
        match self.kind {
            NodeKind::Union => TIGHT_ROW_H,
            _ => self.row_h,
        }
    }

    /// Top of body row `i`.
    pub fn row_y(&self, i: usize) -> (r: u64)
        requires
            self.is_drawable(),
            i <= u32::MAX,
        ensures
            r == self.deep_view().top_of_row(i as int),
            r <= 0x40_0000_0000,
    {
        let p: u64 = self.body_pitch();
        assert(0 <= i * p <= 0xffff_ffff * 26) by (nonlinear_arith)
            requires
                0 <= i <= 0xffff_ffff,
                1 <= p <= 26,
        ;
        self.body_top() + i as u64 * p
    }

    /// Text baseline for body row `i`.
    pub fn row_baseline(&self, i: usize) -> (r: u64)
        requires
            self.is_drawable(),
            i <= u32::MAX,
        ensures
            r == self.deep_view().top_of_row(i as int) + 10,
    {
        self.row_y(i) + 10
    }

    /// What stands at height `local_y`, in whole pixels below the top of the card; `inside` says
    /// whether the point lies between the card's sides.
    pub fn hit_row(&self, inside: bool, local_y: i64) -> (r: Option<RowHit>)
        requires
            self.is_drawable(),
        ensures
            r == self.deep_view().hit(inside, local_y as int),
    {
        let top: u64 = self.body_top();
        if !inside || local_y < top as i64 {
            return None;
        }
        assert(self.deep_view().member_of_unions.len() == self.member_of_unions@.len());
        assert(self.deep_view().implements.len() == self.implements@.len());
        assert(self.deep_view().rows.len() == self.rows@.len());
        let y: u64 = local_y as u64;
        if self.member_of_unions.len() > 0 && y >= self.band.union_rows_top {
            let k: u64 = (y - self.band.union_rows_top) / TIGHT_ROW_H;
            if k < self.member_of_unions.len() as u64 {
                return Some(RowHit::MemberOfUnion(k as usize));
            }
        }
        if self.implements.len() > 0 && y >= self.band.iface_rows_top {
            let k: u64 = (y - self.band.iface_rows_top) / TIGHT_ROW_H;
            if k < self.implements.len() as u64 {
                return Some(RowHit::Implements(k as usize));
            }
        }
        let i: u64 = (y - top) / self.body_pitch();
        if i < self.rows.len() as u64 {
            Some(RowHit::Row(i as usize))
        } else {
            None
        }
    }

    /// Display row for a graph row (field, then enum value).
    pub fn display_row(&self, graph_row: usize) -> (r: Option<usize>)
        ensures
            r == (match self.deep_view().shown_row(graph_row as int) {
                Some(i) => Some(i as usize),
                None => None,
            }),
    {
        if graph_row < self.row_map.len() {
            match self.row_map[graph_row] {
                Some(i) => Some(i as usize),
                None => None,
            }
        } else {
            None
        }
    }

    /// Where a link leaves the card: the middle of the row of its field, or of the card where the
    /// field has none.
    pub fn port_y(&self, field_index: Option<usize>) -> (r: u64)
        requires
            self.is_drawable(),
        ensures
            r == self.deep_view().port(field_index),
    {
        assert(self.deep_view().rows.len() == self.rows@.len());
        match field_index {
            Some(f) => match self.display_row(f) {
                Some(i) => if i < self.rows.len() {
                    self.row_y(i) + self.body_pitch() / 2
                } else {
                    self.h / 2
                },
                None => self.h / 2,
            },
            None => self.h / 2,
        }
    }
}

// ── laws ───────────────────────────────────────────────────────────────────

/// `x` lies in step `i` of a scale of steps of `p` exactly when the quotient is `i`.
proof fn lemma_step(x: int, p: int, i: int)
    requires
        0 < p,
        i * p <= x < i * p + p,
    ensures
        x / p == i,
{
    vstd::arithmetic::div_mod::lemma_fundamental_div_mod_converse(x, p, i, x - i * p);
}

/// Hit-testing is the inverse of painting: a point on body row `i` of a card hits that row.
pub proof fn hits_find_body_rows(
    nodes: Seq<NodeModel>,
    at: int,
    knobs: KnobModel,
    i: int,
    y: int,
)
    requires
        ({
            let c = card_of(nodes, at, knobs);
            &&& 0 <= i < c.rows.len() <= u32::MAX
            &&& c.top_of_row(i) <= y < c.top_of_row(i) + c.grid_pitch()
            &&& has_bands(c.kind) || (c.implements.len() == 0 && c.member_of_unions.len() == 0)
        }),
    ensures
        card_of(nodes, at, knobs).hit(true, y) == Some(RowHit::Row(i as usize)),
{
    let c = card_of(nodes, at, knobs);
    let p = c.grid_pitch();
    let n = c.rows.len() as int;
    assert(i * p + p <= n * p && 0 <= i * p) by (nonlinear_arith)
        requires
            0 <= i < n,
            0 < p,
    ;
    lemma_step(y - c.top(), p, i);
}

/// Hit-testing is the inverse of painting: a point on row `k` of the implements band of an object
/// or interface card hits that row.
pub proof fn hits_find_interfaces(
    nodes: Seq<NodeModel>,
    at: int,
    knobs: KnobModel,
    k: int,
    y: int,
)
    requires
        ({
            let c = card_of(nodes, at, knobs);
            &&& 0 <= k < c.implements.len() <= u32::MAX
            &&& c.band.iface_rows_top + 14 * k <= y < c.band.iface_rows_top + 14 * k + 14
            &&& has_bands(c.kind)
        }),
    ensures
        card_of(nodes, at, knobs).hit(true, y) == Some(RowHit::Implements(k as usize)),
{
    let c = card_of(nodes, at, knobs);
    let shown = knobs.show_descriptions;
    let n = c.rows.len() as int;
    assert(n * pitch(shown) >= 0);
    lemma_step(y - c.band.iface_rows_top, 14, k);
}

/// Hit-testing is the inverse of painting: a point on row `k` of the member-of-union band of an
/// object or interface card hits that row.
pub proof fn hits_find_unions(nodes: Seq<NodeModel>, at: int, knobs: KnobModel, k: int, y: int)
    requires
        ({
            let c = card_of(nodes, at, knobs);
            &&& 0 <= k < c.member_of_unions.len() <= u32::MAX
            &&& c.band.union_rows_top + 14 * k <= y < c.band.union_rows_top + 14 * k + 14
            &&& has_bands(c.kind)
        }),
    ensures
        card_of(nodes, at, knobs).hit(true, y) == Some(RowHit::MemberOfUnion(k as usize)),
{
    let c = card_of(nodes, at, knobs);
    let shown = knobs.show_descriptions;
    let n = c.rows.len() as int;
    assert(n * pitch(shown) >= 0);
    lemma_step(y - c.band.union_rows_top, 14, k);
}

// ── building cards ─────────────────────────────────────────────────────────

/// The height of a card.
fn measure(kind: NodeKind, shown: bool, rows: u64, ifaces: u64, unions: u64) -> (r: u64)
    requires
        rows + ifaces + unions <= u32::MAX,
    ensures
        r == card_height(kind, shown, rows as int, ifaces as int, unions as int),
        r < 0x40_0000_0000,
{
    let row_h: u64 = if shown { ROW_H_WITH_DESC } else { ROW_H };
    let header_h: u64 = if shown { HEADER_H_WITH_DESC } else { HEADER_H };
    let is_union = matches!(kind, NodeKind::Union);
    let banded = matches!(kind, NodeKind::Object | NodeKind::Interface);
    let fields: u64 = if is_union { 0 } else { rows };
    let (grid, tight): (u64, u64) = match kind {
        NodeKind::Union => (0, rows),
        NodeKind::Scalar => (0, 0),
        _ => (rows, ifaces + unions),
    };
    let body: u64 = if grid == 0 && tight == 0 {
        row_h
    } else {
        grid * row_h + tight * TIGHT_ROW_H
    };
    let impl_gap: u64 = if banded && ifaces > 0 && fields > 0 { IMPL_SECTION_GAP } else { 0 };
    let union_gap: u64 = if matches!(kind, NodeKind::Object) && unions > 0 && ifaces == 0 && fields
        > 0 {
        IMPL_SECTION_GAP
    } else {
        0
    };
    header_h + TOP_BODY_PAD + body + impl_gap + union_gap + BOTTOM_PAD
}

/// `a - b`, or zero where that is below zero.
fn less(a: u64, b: u64) -> (r: u64)
    ensures
        r == not_below_zero(a - b),
{
    if a < b {
        0
    } else {
        a - b
    }
}

/// The trailing bands of a card.
fn band_geom(kind: NodeKind, h: u64, shown: bool, fields: u64, ifaces: u64, unions: u64) -> (r:
    BandGeom)
    requires
        fields + ifaces + unions <= u32::MAX,
        h < 0x40_0000_0000,
    ensures
        r.deep_view() == band_of(
            kind,
            h as int,
            shown,
            fields as int,
            ifaces as int,
            unions as int,
        ),
        r.iface_rows_top < 0x1_0000_0000_0000,
        r.union_rows_top < 0x1_0000_0000_0000,
{
    if !matches!(kind, NodeKind::Object | NodeKind::Interface) || (ifaces == 0 && unions == 0) {
        return BandGeom::default();
    }
    let header_h: u64 = if shown { HEADER_H_WITH_DESC } else { HEADER_H };
    let gap: u64 = if fields > 0 { IMPL_SECTION_GAP } else { 0 };
    let grid: u64 = if shown { fields * ROW_H_WITH_DESC } else { fields * ROW_H };
    let top: u64 = header_h + TOP_BODY_PAD + grid - 2 + gap;
    let iface_block: u64 = ifaces * TIGHT_ROW_H;
    let union_block: u64 = unions * TIGHT_ROW_H;
    let extra: u64 = less(h, top + iface_block + union_block);
    let bottom: u64 = if ifaces == 0 {
        top
    } else if unions == 0 {
        h
    } else {
        top + iface_block + extra / 2
    };
    BandGeom {
        iface_band_top: top,
        iface_band_bottom: bottom,
        iface_rows_top: top + less(bottom, top + iface_block) / 2,
        union_band_top: bottom,
        union_rows_top: bottom + less(h, bottom + union_block) / 2,
    }
}

fn names_in(slot: &Option<Vec<String>>) -> (r: Vec<String>)
    ensures
        r.deep_view() == or_empty(slot.deep_view()),
{
    match slot {
        Some(names) => names.duplicate(),
        None => {
            let none: Vec<String> = Vec::new();
            assert(none.deep_view() =~= Seq::<Seq<char>>::empty());
            none
        },
    }
}

/// The card of node `i`.
pub fn build_card(nodes: &Vec<GraphNodeData>, i: usize, options: &ModelOptions) -> (r: Card)
    requires
        can_number(nodes.deep_view()),
        i < nodes@.len(),
    ensures
        r.deep_view() == card_of(nodes.deep_view(), i as int, options.deep_view()),
        r.is_drawable(),
{
    let ghost ns = nodes.deep_view();
    proof {
        lemma_weight(ns, i as int);
        lemma_weight(ns, ns.len() as int);
    }
    let n = &nodes[i];
    assert(ns[i as int] == n.deep_view());
    let shown = options.show_descriptions;
    let (rows, row_map) = make_rows(nodes, n, options);
    let implements = names_in(&n.interfaces);
    let member_of_unions = names_in(&n.member_of_unions);
    assert(implements.deep_view().len() == implements@.len());
    assert(member_of_unions.deep_view().len() == member_of_unions@.len());
    assert(rows.deep_view().len() == rows@.len());
    let h: u64 = measure(
        n.kind,
        shown,
        rows.len() as u64,
        implements.len() as u64,
        member_of_unions.len() as u64,
    );
    let fields: u64 = match n.kind {
        NodeKind::Union => 0,
        _ => rows.len() as u64,
    };
    let band = band_geom(
        n.kind,
        h,
        shown,
        fields,
        implements.len() as u64,
        member_of_unions.len() as u64,
    );
    Card {
        index: i as u32,
        name: n.name.clone(),
        kind: n.kind,
        kind_label: kind_label(n.kind),
        kind_upper: kind_upper(n.kind),
        description: n.description.duplicate(),
        header_desc: if shown { make_line(&n.description) } else { None },
        rows,
        implements,
        member_of_unions,
        h,
        row_h: if shown { ROW_H_WITH_DESC } else { ROW_H },
        header_h: if shown { HEADER_H_WITH_DESC } else { HEADER_H },
        band,
        is_overlay: n.is_overlay,
        row_map,
    }
}

/// The cards of all nodes.
pub fn build_cards(nodes: &Vec<GraphNodeData>, options: &ModelOptions) -> (r: Vec<Card>)
    requires
        can_number(nodes.deep_view()),
    ensures
        r.deep_view() == cards_of(nodes.deep_view(), options.deep_view()),
        forall|i: int| 0 <= i < r@.len() ==> (#[trigger] r@[i]).is_drawable(),
{
    let mut out: Vec<Card> = Vec::new();
    let mut i: usize = 0;
    while i < nodes.len()
        invariant
            i <= nodes@.len(),
            can_number(nodes.deep_view()),
            out@.len() == i,
            forall|k: int|
                0 <= k < i ==> (#[trigger] out@[k]).deep_view() == card_of(
                    nodes.deep_view(),
                    k,
                    options.deep_view(),
                ),
            forall|k: int| 0 <= k < i ==> (#[trigger] out@[k]).is_drawable(),
        decreases nodes@.len() - i,
    {
        out.push(build_card(nodes, i, options));
        i = i + 1;
    }
    assert(out.deep_view() =~= cards_of(nodes.deep_view(), options.deep_view()));
    out
}

} // verus!
