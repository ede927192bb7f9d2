//! Node cards: the rows that a type shows, and the vertical geometry shared by painting and
//! hit-testing. Lengths are whole pixels.

use vstd::prelude::*;

use crate::copies::Duplicate;
use crate::edges::{builtin_scalar, is_builtin_scalar, node_ids};
use crate::extensions::or_empty;
use crate::lists::{last_place, lemma_last_place, lemma_last_place_is};
use crate::text::{ends, ends_with, same};
use crate::types::{
    ArgModel, EnumValue, FieldModel, GraphArg, GraphField, GraphNodeData, NodeKind, NodeModel,
    ValueModel,
};
use crate::until::{expired, is_until_expired};
use crate::words::{one_line, spaced, words};

verus! {

/// Height of a card's header.
pub const HEADER_H: u64 = 42;

/// Height of a card's header where descriptions are shown.
pub const HEADER_H_WITH_DESC: u64 = 56;

/// Row pitch.
pub const ROW_H: u64 = 14;

/// Row pitch when field descriptions are shown inline.
pub const ROW_H_WITH_DESC: u64 = 26;

/// Trailing (implements / member-of-union) rows always use this pitch.
pub const TIGHT_ROW_H: u64 = 14;

/// Space above the body.
pub const TOP_BODY_PAD: u64 = 8;

/// Space below the body.
pub const BOTTOM_PAD: u64 = 10;

/// Space above the first trailing section.
pub const IMPL_SECTION_GAP: u64 = 8;

/// What a body row stands for.
#[derive(Debug, Clone, Copy, PartialEq, Eq, Structural)]
pub enum RowKind {
    Field,
    EnumValue,
    /// Member of a `union` type: always tight pitch.
    UnionMember,
}

/// Which palette entry the right-aligned return type uses.
#[derive(Debug, Clone, Copy, PartialEq, Eq, Structural)]
pub enum TypeColor {
    Normal,
    BuiltinScalar,
    Expired,
}

/// A hit inside a card's body, in one of its three vertical zones: body rows, the implements band,
/// the member-of-union band.
#[derive(Debug, Clone, Copy, PartialEq, Eq, Structural)]
pub enum RowHit {
    Row(usize),
    Implements(usize),
    MemberOfUnion(usize),
}

/// Knobs on the cards and the links between them.
#[derive(Debug, Clone, PartialEq, Eq)]
pub struct ModelOptions {
    /// Draw a description line under each field row (taller cards).
    pub show_descriptions: bool,
    /// Collapse parallel field edges sharing source and target into one arrow.
    pub bundle_edges: bool,
    /// Hide fields whose return type is a builtin scalar (String/Int/…).
    pub hide_primitive_fields: bool,
    /// Today as `YYYY-MM-DD`, for `[until]` expiry coloring.
    pub today: String,
}

/// Model of [`ModelOptions`].
#[verifier::ext_equal]
pub struct KnobModel {
    pub show_descriptions: bool,
    pub bundle_edges: bool,
    pub hide_primitive_fields: bool,
    pub today: Seq<char>,
}

impl DeepView for ModelOptions {
    type V = KnobModel;

    open spec fn deep_view(&self) -> KnobModel {
        KnobModel {
            show_descriptions: self.show_descriptions,
            bundle_edges: self.bundle_edges,
            hide_primitive_fields: self.hide_primitive_fields,
            today: self.today@,
        }
    }
}

impl ModelOptions {
    /// The options to start with on the day `today`: parallel edges bundled, nothing else.
    pub fn on_day(today: &str) -> (r: Self)
        ensures
            r.deep_view() == (KnobModel {
                show_descriptions: false,
                bundle_edges: true,
                hide_primitive_fields: false,
                today: today@,
            }),
    {
        ModelOptions {
            show_descriptions: false,
            bundle_edges: true,
            hide_primitive_fields: false,
            today: today.to_owned(),
        }
    }
}

/// Vertical geometry of the two trailing bands.
#[derive(Debug, Clone, Copy, PartialEq, Eq, Structural)]
pub struct BandGeom {
    pub iface_band_top: u64,
    pub iface_band_bottom: u64,
    pub iface_rows_top: u64,
    pub union_band_top: u64,
    pub union_rows_top: u64,
}

/// Model of a [`BandGeom`].
pub struct BandModel {
    pub iface_band_top: int,
    pub iface_band_bottom: int,
    pub iface_rows_top: int,
    pub union_band_top: int,
    pub union_rows_top: int,
}

impl DeepView for BandGeom {
    type V = BandModel;

    open spec fn deep_view(&self) -> BandModel {
        BandModel {
            iface_band_top: self.iface_band_top as int,
            iface_band_bottom: self.iface_band_bottom as int,
            iface_rows_top: self.iface_rows_top as int,
            union_band_top: self.union_band_top as int,
            union_rows_top: self.union_rows_top as int,
        }
    }
}

/// A card without trailing bands.
pub open spec fn no_band() -> BandModel {
    BandModel {
        iface_band_top: 0,
        iface_band_bottom: 0,
        iface_rows_top: 0,
        union_band_top: 0,
        union_rows_top: 0,
    }
}

impl Default for BandGeom {
    /// No bands.
    fn default() -> (r: Self)
        ensures
            r.deep_view() == no_band(),
    {
        BandGeom {
            iface_band_top: 0,
            iface_band_bottom: 0,
            iface_rows_top: 0,
            union_band_top: 0,
            union_rows_top: 0,
        }
    }
}

/// One body row of a card.
#[derive(Debug, Clone, PartialEq, Eq)]
pub struct Row {
    pub kind: RowKind,
    pub left: String,
    /// Right-aligned type expression (empty for enum values and union members).
    pub right: String,
    /// Card index this row navigates to on click, if any.
    pub target: Option<u32>,
    pub deprecated: bool,
    pub is_overlay: bool,
    pub description: Option<String>,
    /// Single-line description, in show-descriptions mode.
    pub description_line: Option<String>,
    pub deprecation_reason: Option<String>,
    /// The `[until YYYY-MM-DD]` sunset date has passed.
    pub until_expired: bool,
    /// Field type was unwrapped through a Relay Connection.
    pub is_relay: bool,
    pub type_color: TypeColor,
    /// Names and types of the field's arguments.
    pub args: Vec<(String, String)>,
    pub required_args: usize,
}

/// Model of a [`Row`].
#[verifier::ext_equal]
pub struct RowModel {
    pub kind: RowKind,
    pub left: Seq<char>,
    pub right: Seq<char>,
    pub target: Option<u32>,
    pub deprecated: bool,
    pub is_overlay: bool,
    pub description: Option<Seq<char>>,
    pub description_line: Option<Seq<char>>,
    pub deprecation_reason: Option<Seq<char>>,
    pub until_expired: bool,
    pub is_relay: bool,
    pub type_color: TypeColor,
    pub args: Seq<(Seq<char>, Seq<char>)>,
    pub required_args: nat,
}

impl DeepView for Row {
    type V = RowModel;

    open spec fn deep_view(&self) -> RowModel {
        RowModel {
            kind: self.kind,
            left: self.left@,
            right: self.right@,
            target: self.target,
            deprecated: self.deprecated,
            is_overlay: self.is_overlay,
            description: self.description.deep_view(),
            description_line: self.description_line.deep_view(),
            deprecation_reason: self.deprecation_reason.deep_view(),
            until_expired: self.until_expired,
            is_relay: self.is_relay,
            type_color: self.type_color,
            args: self.args.deep_view(),
            required_args: self.required_args as nat,
        }
    }
}

/// A type drawn as a card.
#[derive(Debug, Clone, PartialEq, Eq)]
pub struct Card {
    /// Index of the node.
    pub index: u32,
    pub name: String,
    pub kind: NodeKind,
    /// Lowercase word for sidebar badges ("type", "interface", …).
    pub kind_label: &'static str,
    /// Uppercase word the card header paints ("OBJECT", "INTERFACE", …).
    pub kind_upper: &'static str,
    pub description: Option<String>,
    /// One-line header description, shown in show-descriptions mode.
    pub header_desc: Option<String>,
    pub rows: Vec<Row>,
    /// Trailing band (Object / Interface).
    pub implements: Vec<String>,
    /// Trailing band (Object).
    pub member_of_unions: Vec<String>,
    pub h: u64,
    /// Row pitch: `ROW_H`, or `ROW_H_WITH_DESC` in show-descriptions mode. Union members and
    /// trailing rows always use `TIGHT_ROW_H`.
    pub row_h: u64,
    pub header_h: u64,
    pub band: BandGeom,
    /// The whole type came from the overlay.
    pub is_overlay: bool,
    /// Graph row (field index, then enum-value index) to display row, `None` when hidden by the
    /// primitive-fields filter.
    pub row_map: Vec<Option<u32>>,
}

/// Model of a [`Card`].
#[verifier::ext_equal]
pub struct CardModel {
    pub index: int,
    pub name: Seq<char>,
    pub kind: NodeKind,
    pub kind_label: Seq<char>,
    pub kind_upper: Seq<char>,
    pub description: Option<Seq<char>>,
    pub header_desc: Option<Seq<char>>,
    pub rows: Seq<RowModel>,
    pub implements: Seq<Seq<char>>,
    pub member_of_unions: Seq<Seq<char>>,
    pub h: int,
    pub row_h: int,
    pub header_h: int,
    pub band: BandModel,
    pub is_overlay: bool,
    pub row_map: Seq<Option<u32>>,
}

impl DeepView for Card {
    type V = CardModel;

    open spec fn deep_view(&self) -> CardModel {
        CardModel {
            index: self.index as int,
            name: self.name@,
            kind: self.kind,
            kind_label: self.kind_label@,
            kind_upper: self.kind_upper@,
            description: self.description.deep_view(),
            header_desc: self.header_desc.deep_view(),
            rows: self.rows.deep_view(),
            implements: self.implements.deep_view(),
            member_of_unions: self.member_of_unions.deep_view(),
            h: self.h as int,
            row_h: self.row_h as int,
            header_h: self.header_h as int,
            band: self.band.deep_view(),
            is_overlay: self.is_overlay,
            row_map: self.row_map@,
        }
    }
}

// ── size limits ────────────────────────────────────────────────────────────

/// The rows that a node can show, in its body and in its trailing bands.
pub open spec fn row_total(n: NodeModel) -> nat {
    or_empty(n.fields).len() + or_empty(n.values).len() + or_empty(n.members).len() + or_empty(
        n.interfaces,
    ).len() + or_empty(n.member_of_unions).len()
}

/// The nodes and all their rows together.
pub open spec fn weight(nodes: Seq<NodeModel>) -> nat
    decreases nodes.len(),
{
    if nodes.len() == 0 {
        0
    } else {
        weight(nodes.drop_last()) + 1 + row_total(nodes.last())
    }
}

/// Nodes and rows can be numbered with 32 bits.
pub open spec fn can_number(nodes: Seq<NodeModel>) -> bool {
    weight(nodes) <= u32::MAX
}

/// Each node weighs no more than all together.
pub proof fn lemma_weight(nodes: Seq<NodeModel>, k: int)
    requires
        0 <= k <= nodes.len(),
    ensures
        k <= weight(nodes.take(k)) <= weight(nodes),
        k < nodes.len() ==> weight(nodes.take(k)) + 1 + row_total(nodes[k]) <= weight(nodes),
    decreases nodes.len() - k,
{
    if k < nodes.len() {
        lemma_weight(nodes, k + 1);
        assert(nodes.take(k + 1).drop_last() =~= nodes.take(k));
        lemma_weight_counts(nodes.take(k));
    } else {
        assert(nodes.take(k) =~= nodes);
        lemma_weight_counts(nodes);
    }
}

proof fn lemma_weight_counts(nodes: Seq<NodeModel>)
    ensures
        nodes.len() <= weight(nodes),
    decreases nodes.len(),
{
    if nodes.len() > 0 {
        lemma_weight_counts(nodes.drop_last());
    }
}

fn slot_len<T: DeepView>(slot: &Option<Vec<T>>) -> (r: usize)
    ensures
        r == or_empty(slot.deep_view()).len(),
{
    match slot {
        Some(list) => list.len(),
        None => 0,
    }
}

/// Decides [`can_number`].
pub fn is_numbered(nodes: &Vec<GraphNodeData>) -> (r: bool)
    ensures
        r == can_number(nodes.deep_view()),
{
    let ghost ns = nodes.deep_view();
    let limit: u128 = 0xffff_ffff;
    let mut sum: u128 = 0;
    let mut i: usize = 0;
    assert(ns.take(0) =~= Seq::<NodeModel>::empty());
    while i < nodes.len()
        invariant
            i <= nodes@.len(),
            ns == nodes.deep_view(),
            limit == 0xffff_ffff,
            sum == weight(ns.take(i as int)),
            sum <= limit,
        decreases nodes@.len() - i,
    {
        let n = &nodes[i];
        assert(ns[i as int] == n.deep_view());
        assert(ns.take(i as int + 1).drop_last() =~= ns.take(i as int));
        proof {
            lemma_weight(ns, i as int);
        }
        sum = sum + 1 + slot_len(&n.fields) as u128 + slot_len(&n.values) as u128 + slot_len(
            &n.members,
        ) as u128 + slot_len(&n.interfaces) as u128 + slot_len(&n.member_of_unions) as u128;
        if sum > limit {
            return false;
        }
        i = i + 1;
    }
    assert(ns.take(i as int) =~= ns);
    true
}

// ── rows ───────────────────────────────────────────────────────────────────

/// The card of the type `id`; of several nodes with that id the last counts.
pub open spec fn card_index(nodes: Seq<NodeModel>, id: Seq<char>) -> Option<u32> {
    let at = last_place(node_ids(nodes), id);
    if at >= 0 {
        Some(at as u32)
    } else {
        None
    }
}

/// The card of the type `id`; of several nodes with that id the last counts.
#[verifier::loop_isolation(false)]
pub fn index_of(nodes: &Vec<GraphNodeData>, id: &str) -> (r: Option<u32>)
    requires
        nodes@.len() <= u32::MAX,
    ensures
        r == card_index(nodes.deep_view(), id@),
        r matches Some(k) ==> k < nodes@.len(),
{
    let ghost ids = node_ids(nodes.deep_view());
    proof {
        lemma_last_place(ids, id@);
    }
    let mut k: usize = nodes.len();
    while k > 0
        invariant
            k <= nodes@.len(),
            forall|j: int| k <= j < nodes@.len() ==> ids[j] != id@,
        decreases k,
    {
        k = k - 1;
        assert(ids[k as int] == nodes@[k as int].id@);
        if same(nodes[k].id.as_str(), id) {
            proof {
                lemma_last_place_is(ids, id@, k as int);
            }
            return Some(k as u32);
        }
    }
    None
}

/// The text on a single line; nothing where the line is empty.
pub open spec fn line_of(text: Option<Seq<char>>) -> Option<Seq<char>> {
    match text {
        Some(t) => if spaced(words(t)).len() > 0 {
            Some(spaced(words(t)))
        } else {
            None
        },
        None => None,
    }
}

/// The line under a row: its description, or else the reason that a deprecated row gives.
pub open spec fn row_line(
    shown: bool,
    description: Option<Seq<char>>,
    deprecated: bool,
    reason: Option<Seq<char>>,
) -> Option<Seq<char>> {
    if !shown {
        None
    } else if description is Some {
        line_of(description)
    } else if deprecated {
        line_of(reason)
    } else {
        None
    }
}

/// A row with nothing but a label and a target.
pub open spec fn bare_row(kind: RowKind, left: Seq<char>, target: Option<u32>) -> RowModel {
    RowModel {
        kind,
        left,
        right: Seq::empty(),
        target,
        deprecated: false,
        is_overlay: false,
        description: None,
        description_line: None,
        deprecation_reason: None,
        until_expired: false,
        is_relay: false,
        type_color: TypeColor::Normal,
        args: Seq::empty(),
        required_args: 0,
    }
}

/// The color of a field's type.
pub open spec fn type_color_of(f: FieldModel, today: Seq<char>) -> TypeColor {
    if expired(f.until, today) {
        TypeColor::Expired
    } else if builtin_scalar(f.base_type) {
        TypeColor::BuiltinScalar
    } else {
        TypeColor::Normal
    }
}

/// Name and type of each argument.
pub open spec fn arg_texts(args: Seq<ArgModel>) -> Seq<(Seq<char>, Seq<char>)> {
    args.map_values(|a: ArgModel| (a.name, a.type_))
}

/// How many arguments have a type that ends in `!`.
pub open spec fn required_count(args: Seq<ArgModel>) -> nat
    decreases args.len(),
{
    if args.len() == 0 {
        0
    } else {
        required_count(args.drop_last()) + (if ends_with(args.last().type_, "!"@) {
            1nat
        } else {
            0
        })
    }
}

/// The row of a field.
pub open spec fn field_row(nodes: Seq<NodeModel>, f: FieldModel, knobs: KnobModel) -> RowModel {
    RowModel {
        kind: RowKind::Field,
        left: f.name,
        right: f.type_,
        target: card_index(nodes, f.base_type),
        deprecated: f.is_deprecated,
        is_overlay: f.is_overlay,
        description: f.description,
        description_line: row_line(
            knobs.show_descriptions,
            f.description,
            f.is_deprecated,
            f.deprecation_reason,
        ),
        deprecation_reason: f.deprecation_reason,
        until_expired: expired(f.until, knobs.today),
        is_relay: f.is_relay_connection,
        type_color: type_color_of(f, knobs.today),
        args: arg_texts(or_empty(f.args)),
        required_args: required_count(or_empty(f.args)),
    }
}

/// The row of an enum value.
pub open spec fn value_row(v: ValueModel, knobs: KnobModel) -> RowModel {
    RowModel {
        kind: RowKind::EnumValue,
        left: v.name,
        right: Seq::empty(),
        target: None,
        deprecated: v.is_deprecated,
        is_overlay: v.is_overlay,
        description: v.description,
        description_line: row_line(
            knobs.show_descriptions,
            v.description,
            v.is_deprecated,
            v.deprecation_reason,
        ),
        deprecation_reason: v.deprecation_reason,
        until_expired: expired(v.until, knobs.today),
        is_relay: false,
        type_color: TypeColor::Normal,
        args: Seq::empty(),
        required_args: 0,
    }
}

/// The field has a row; a builtin scalar is hidden where primitive fields are.
pub open spec fn is_shown(f: FieldModel, knobs: KnobModel) -> bool {
    !(knobs.hide_primitive_fields && builtin_scalar(f.base_type))
}

/// The rows of the fields, in order.
pub open spec fn field_rows(
    nodes: Seq<NodeModel>,
    fields: Seq<FieldModel>,
    knobs: KnobModel,
) -> Seq<RowModel>
    decreases fields.len(),
{
    if fields.len() == 0 {
        Seq::empty()
    } else if is_shown(fields.last(), knobs) {
        field_rows(nodes, fields.drop_last(), knobs).push(field_row(nodes, fields.last(), knobs))
    } else {
        field_rows(nodes, fields.drop_last(), knobs)
    }
}

/// How many of the fields have a row.
pub open spec fn shown_count(fields: Seq<FieldModel>, knobs: KnobModel) -> nat
    decreases fields.len(),
{
    if fields.len() == 0 {
        0
    } else {
        shown_count(fields.drop_last(), knobs) + (if is_shown(fields.last(), knobs) {
            1nat
        } else {
            0
        })
    }
}

/// Which row each field has: as many as are shown before it, or none where it is hidden.
pub open spec fn field_map(fields: Seq<FieldModel>, knobs: KnobModel) -> Seq<Option<u32>> {
    Seq::new(
        fields.len(),
        |k: int|
            if is_shown(fields[k], knobs) {
                Some(shown_count(fields.take(k), knobs) as u32)
            } else {
                None
            },
    )
}

/// The body rows of a node: its fields, its enum values and its union members.
pub open spec fn rows_of(nodes: Seq<NodeModel>, n: NodeModel, knobs: KnobModel) -> Seq<RowModel> {
    field_rows(nodes, or_empty(n.fields), knobs) + or_empty(n.values).map_values(
        |v: ValueModel| value_row(v, knobs),
    ) + or_empty(n.members).map_values(
        |m: Seq<char>| bare_row(RowKind::UnionMember, m, card_index(nodes, m)),
    )
}

/// Which row each field and each enum value has.
pub open spec fn row_map_of(n: NodeModel, knobs: KnobModel) -> Seq<Option<u32>> {
    field_map(or_empty(n.fields), knobs) + Seq::new(
        or_empty(n.values).len(),
        |k: int| Some((shown_count(or_empty(n.fields), knobs) + k) as u32),
    )
}

/// As many rows as fields are shown, and no more than fields.
pub proof fn lemma_field_rows(nodes: Seq<NodeModel>, fields: Seq<FieldModel>, knobs: KnobModel)
    ensures
        field_rows(nodes, fields, knobs).len() == shown_count(fields, knobs) <= fields.len(),
    decreases fields.len(),
{
    if fields.len() > 0 {
        lemma_field_rows(nodes, fields.drop_last(), knobs);
    }
}

/// Hiding moves rows up and loses none that is shown: the row that a field is mapped to is the row
/// of that field, and the row that an enum value is mapped to is the row of that value.
pub proof fn rows_are_found_by_the_map(
    nodes: Seq<NodeModel>,
    n: NodeModel,
    knobs: KnobModel,
    k: int,
)
    requires
        row_total(n) <= u32::MAX,
        0 <= k < row_map_of(n, knobs).len(),
    ensures
        k < or_empty(n.fields).len() ==> (row_map_of(n, knobs)[k] is Some <==> is_shown(
            or_empty(n.fields)[k],
            knobs,
        )),
        row_map_of(n, knobs)[k] matches Some(at) ==> at < rows_of(nodes, n, knobs).len() && rows_of(
            nodes,
            n,
            knobs,
        )[at as int] == (if k < or_empty(n.fields).len() {
            field_row(nodes, or_empty(n.fields)[k], knobs)
        } else {
            value_row(or_empty(n.values)[k - or_empty(n.fields).len()], knobs)
        }),
{
    let fields = or_empty(n.fields);
    lemma_field_rows(nodes, fields, knobs);
    if k < fields.len() && is_shown(fields[k], knobs) {
        lemma_row_of_field(nodes, fields, knobs, k);
    }
}

proof fn lemma_row_of_field(
    nodes: Seq<NodeModel>,
    fields: Seq<FieldModel>,
    knobs: KnobModel,
    k: int,
)
    requires
        0 <= k < fields.len(),
        is_shown(fields[k], knobs),
    ensures
        shown_count(fields.take(k), knobs) < field_rows(nodes, fields, knobs).len(),
        field_rows(nodes, fields, knobs)[shown_count(fields.take(k), knobs) as int] == field_row(
            nodes,
            fields[k],
            knobs,
        ),
    decreases fields.len(),
{
    let rest = fields.drop_last();
    lemma_field_rows(nodes, rest, knobs);
    if k == fields.len() - 1 {
        assert(fields.take(k) =~= rest);
    } else {
        lemma_row_of_field(nodes, rest, knobs, k);
        assert(rest.take(k) =~= fields.take(k));
    }
}

pub(crate) fn make_line(text: &Option<String>) -> (r: Option<String>)
    ensures
        r.deep_view() == line_of(text.deep_view()),
{
    match text {
        Some(t) => {
            let line = one_line(t.as_str());
            if line.as_str().unicode_len() == 0 {
                None
            } else {
                Some(line)
            }
        },
        None => None,
    }
}

fn make_row_line(
    shown: bool,
    description: &Option<String>,
    deprecated: bool,
    reason: &Option<String>,
) -> (r: Option<String>)
    ensures
        r.deep_view() == row_line(
            shown,
            description.deep_view(),
            deprecated,
            reason.deep_view(),
        ),
{
    if !shown {
        None
    } else if description.is_some() {
        make_line(description)
    } else if deprecated {
        make_line(reason)
    } else {
        None
    }
}

fn make_args(args: &Option<Vec<GraphArg>>) -> (r: (Vec<(String, String)>, usize))
    ensures
        r.0.deep_view() == arg_texts(or_empty(args.deep_view())),
        r.1 == required_count(or_empty(args.deep_view())),
{
    let mut texts: Vec<(String, String)> = Vec::new();
    let mut required: usize = 0;
    let ghost all = or_empty(args.deep_view());
    assert(all.take(0) =~= Seq::<ArgModel>::empty());
    match args {
        Some(list) => {
            assert(all == list.deep_view());
            let mut i: usize = 0;
            while i < list.len()
                invariant
                    i <= list@.len(),
                    all == list.deep_view(),
                    texts@.len() == i,
                    forall|k: int|
                        0 <= k < i ==> (#[trigger] texts@[k]).deep_view() == (
                            all[k].name,
                            all[k].type_,
                        ),
                    required == required_count(all.take(i as int)),
                    required <= i,
                decreases list@.len() - i,
            {
                assert(all[i as int] == list@[i as int].deep_view());
                assert(all.take(i as int + 1).drop_last() =~= all.take(i as int));
                texts.push((list[i].name.clone(), list[i].type_.clone()));
                if ends(list[i].type_.as_str(), "!") {
                    required = required + 1;
                }
                i = i + 1;
            }
            assert(all.take(i as int) =~= all);
        },
        None => {},
    }
    assert(texts.deep_view() =~= arg_texts(all));
    (texts, required)
}

fn make_field_row(nodes: &Vec<GraphNodeData>, f: &GraphField, options: &ModelOptions) -> (r: Row)
    requires
        nodes@.len() <= u32::MAX,
    ensures
        r.deep_view() == field_row(nodes.deep_view(), f.deep_view(), options.deep_view()),
{
    let until: Option<&str> = match &f.until {
        Some(u) => Some(u.as_str()),
        None => None,
    };
    let over = is_until_expired(until, options.today.as_str());
    let (args, required_args) = make_args(&f.args);
    Row {
        kind: RowKind::Field,
        left: f.name.clone(),
        right: f.type_.clone(),
        target: index_of(nodes, f.base_type.as_str()),
        deprecated: f.is_deprecated,
        is_overlay: f.is_overlay,
        description: f.description.duplicate(),
        description_line: make_row_line(
            options.show_descriptions,
            &f.description,
            f.is_deprecated,
            &f.deprecation_reason,
        ),
        deprecation_reason: f.deprecation_reason.duplicate(),
        until_expired: over,
        is_relay: f.is_relay_connection,
        type_color: if over {
            TypeColor::Expired
        } else if is_builtin_scalar(f.base_type.as_str()) {
            TypeColor::BuiltinScalar
        } else {
            TypeColor::Normal
        },
        args,
        required_args,
    }
}

fn make_value_row(v: &EnumValue, options: &ModelOptions) -> (r: Row)
    ensures
        r.deep_view() == value_row(v.deep_view(), options.deep_view()),
{
    let until: Option<&str> = match &v.until {
        Some(u) => Some(u.as_str()),
        None => None,
    };
    let r = Row {
        kind: RowKind::EnumValue,
        left: v.name.clone(),
        right: String::new(),
        target: None,
        deprecated: v.is_deprecated,
        is_overlay: v.is_overlay,
        description: v.description.duplicate(),
        description_line: make_row_line(
            options.show_descriptions,
            &v.description,
            v.is_deprecated,
            &v.deprecation_reason,
        ),
        deprecation_reason: v.deprecation_reason.duplicate(),
        until_expired: is_until_expired(until, options.today.as_str()),
        is_relay: false,
        type_color: TypeColor::Normal,
        args: Vec::new(),
        required_args: 0,
    };
    assert(r.deep_view() =~= value_row(v.deep_view(), options.deep_view()));
    r
}

fn make_member_row(nodes: &Vec<GraphNodeData>, name: &str) -> (r: Row)
    requires
        nodes@.len() <= u32::MAX,
    ensures
        r.deep_view() == bare_row(
            RowKind::UnionMember,
            name@,
            card_index(nodes.deep_view(), name@),
        ),
{
    let r = Row {
        kind: RowKind::UnionMember,
        left: name.to_owned(),
        right: String::new(),
        target: index_of(nodes, name),
        deprecated: false,
        is_overlay: false,
        description: None,
        description_line: None,
        deprecation_reason: None,
        until_expired: false,
        is_relay: false,
        type_color: TypeColor::Normal,
        args: Vec::new(),
        required_args: 0,
    };
    assert(r.deep_view() =~= bare_row(
        RowKind::UnionMember,
        name@,
        card_index(nodes.deep_view(), name@),
    ));
    r
}

/// The rows of the fields and the row that each field has.
fn make_field_rows(
    nodes: &Vec<GraphNodeData>,
    fields: &Option<Vec<GraphField>>,
    options: &ModelOptions,
) -> (r: (Vec<Row>, Vec<Option<u32>>))
    requires
        nodes@.len() <= u32::MAX,
        or_empty(fields.deep_view()).len() <= u32::MAX,
    ensures
        r.0.deep_view() == field_rows(
            nodes.deep_view(),
            or_empty(fields.deep_view()),
            options.deep_view(),
        ),
        r.1@ == field_map(or_empty(fields.deep_view()), options.deep_view()),
{
    let ghost ns = nodes.deep_view();
    let ghost knobs = options.deep_view();
    let ghost all = or_empty(fields.deep_view());
    let mut rows: Vec<Row> = Vec::new();
    let mut map: Vec<Option<u32>> = Vec::new();
    assert(all.take(0) =~= Seq::<FieldModel>::empty());
    assert(rows.deep_view() =~= field_rows(ns, all.take(0), knobs));
    match fields {
        Some(list) => {
            assert(all == list.deep_view());
            let mut i: usize = 0;
            while i < list.len()
                invariant
                    i <= list@.len() <= u32::MAX,
                    nodes@.len() <= u32::MAX,
                    ns == nodes.deep_view(),
                    knobs == options.deep_view(),
                    all == list.deep_view(),
                    rows.deep_view() == field_rows(ns, all.take(i as int), knobs),
                    map@.len() == i,
                    forall|k: int|
                        0 <= k < i ==> #[trigger] map@[k] == field_map(all, knobs)[k],
                decreases list@.len() - i,
            {
                let ghost f = all[i as int];
                let ghost before = rows.deep_view();
                assert(f == list@[i as int].deep_view());
                assert(all.take(i as int + 1).drop_last() =~= all.take(i as int));
                proof {
                    lemma_field_rows(ns, all.take(i as int), knobs);
                }
                assert(rows.deep_view().len() == rows@.len());
                if options.hide_primitive_fields && is_builtin_scalar(list[i].base_type.as_str()) {
                    map.push(None);
                } else {
                    map.push(Some(rows.len() as u32));
                    rows.push(make_field_row(nodes, &list[i], options));
                    assert(rows.deep_view() =~= before.push(field_row(ns, f, knobs)));
                }
                i = i + 1;
            }
            assert(all.take(i as int) =~= all);
        },
        None => {},
    }
    assert(map@ =~= field_map(all, knobs));
    (rows, map)
}

/// The body rows of a node, and the row that each field and enum value has.
pub(crate) fn make_rows(nodes: &Vec<GraphNodeData>, n: &GraphNodeData, options: &ModelOptions) -> (r: (
    Vec<Row>,
    Vec<Option<u32>>,
))
    requires
        nodes@.len() <= u32::MAX,
        row_total(n.deep_view()) <= u32::MAX,
    ensures
        r.0.deep_view() == rows_of(nodes.deep_view(), n.deep_view(), options.deep_view()),
        r.1@ == row_map_of(n.deep_view(), options.deep_view()),
        r.0@.len() <= or_empty(n.deep_view().fields).len() + or_empty(n.deep_view().values).len()
            + or_empty(n.deep_view().members).len(),
{
    let ghost ns = nodes.deep_view();
    let ghost knobs = options.deep_view();
    let ghost nm = n.deep_view();
    let ghost fs = or_empty(nm.fields);
    let ghost vs = or_empty(nm.values);
    let ghost ms = or_empty(nm.members);
    let (mut rows, mut map) = make_field_rows(nodes, &n.fields, options);
    proof {
        lemma_field_rows(ns, fs, knobs);
    }
    let shown: usize = rows.len();
    let ghost base = rows.deep_view();
    let ghost base_map = map@;
    assert(base.len() == shown);
    let ghost value_rows = vs.map_values(|v: ValueModel| value_row(v, knobs));
    assert(base + value_rows.take(0) =~= base);
    match &n.values {
        Some(list) => {
            assert(vs == list.deep_view());
            let mut i: usize = 0;
            while i < list.len()
                invariant
                    i <= list@.len(),
                    shown + list@.len() <= u32::MAX,
                    shown == base.len(),
                    knobs == options.deep_view(),
                    vs == list.deep_view(),
                    value_rows == vs.map_values(|v: ValueModel| value_row(v, knobs)),
                    rows.deep_view() == base + value_rows.take(i as int),
                    map@.len() == base_map.len() + i,
                    forall|k: int| 0 <= k < base_map.len() ==> #[trigger] map@[k] == base_map[k],
                    forall|k: int|
                        base_map.len() <= k < map@.len() ==> #[trigger] map@[k] == Some(
                            (shown + k - base_map.len()) as u32,
                        ),
                decreases list@.len() - i,
            {
                let ghost before = rows.deep_view();
                assert(vs[i as int] == list@[i as int].deep_view());
                assert(rows.deep_view().len() == rows@.len());
                map.push(Some(rows.len() as u32));
                rows.push(make_value_row(&list[i], options));
                assert(rows.deep_view() =~= before.push(value_row(vs[i as int], knobs)));
                assert(rows.deep_view() =~= base + value_rows.take(i as int + 1));
                i = i + 1;
            }
        },
        None => {},
    }
    assert(value_rows.take(vs.len() as int) =~= value_rows);
    assert(rows.deep_view() =~= base + value_rows);
    assert(map@ =~= row_map_of(nm, knobs));
    let ghost upper = rows.deep_view();
    let ghost member_rows = ms.map_values(
        |m: Seq<char>| bare_row(RowKind::UnionMember, m, card_index(ns, m)),
    );
    assert(upper + member_rows.take(0) =~= upper);
    match &n.members {
        Some(list) => {
            assert(ms == list.deep_view());
            let mut i: usize = 0;
            while i < list.len()
                invariant
                    i <= list@.len(),
                    nodes@.len() <= u32::MAX,
                    ns == nodes.deep_view(),
                    ms == list.deep_view(),
                    member_rows == ms.map_values(
                        |m: Seq<char>| bare_row(RowKind::UnionMember, m, card_index(ns, m)),
                    ),
                    rows.deep_view() == upper + member_rows.take(i as int),
                decreases list@.len() - i,
            {
                let ghost before = rows.deep_view();
                assert(ms[i as int] == list@[i as int]@);
                rows.push(make_member_row(nodes, list[i].as_str()));
                assert(rows.deep_view() =~= before.push(member_rows[i as int]));
                assert(rows.deep_view() =~= upper + member_rows.take(i as int + 1));
                i = i + 1;
            }
        },
        None => {},
    }
    assert(member_rows.take(ms.len() as int) =~= member_rows);
    assert(rows.deep_view() =~= rows_of(ns, nm, knobs));
    assert(rows.deep_view().len() == rows@.len());
    (rows, map)
}

} // verus!
