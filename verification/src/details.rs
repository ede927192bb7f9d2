//! What the sidebar shows: the lines of a type's details, the kind chips, headings, and which of its
//! bodies is up.

use vstd::prelude::*;

use crate::browse::{count_kind, has_kind, hit_kinds, kind_count};
use crate::cards::{Card, CardModel, RowKind, RowModel};
use crate::panels::{count_string, count_text};
use crate::search::{SearchResult, SnippetKind};
use crate::text::{chars_of, decimal, decimal_string, trim, trim_bounds};
use crate::types::NodeKind;

verus! {

// ── the lines of a type ────────────────────────────────────────────────────

/// The wash behind a line.
#[derive(Debug, Clone, Copy, PartialEq, Eq, Structural)]
pub enum Tint {
    Plain,
    Pinned,
    Expired,
    Deprecated,
}

/// One field, enum value or union member among a type's details.
#[derive(Debug, PartialEq, Eq)]
pub struct FieldLine {
    pub label: String,
    /// Required and all arguments, as in `(1/3)`.
    pub arity: Option<String>,
    /// What the deprecation says.
    pub note: Option<String>,
    pub tint: Tint,
    /// The field or enum value that the line stands for.
    pub graph_row: Option<usize>,
}

/// The name on a line; a member of a union has a bar before it.
pub open spec fn line_label(r: RowModel) -> Seq<char> {
    if r.kind == RowKind::UnionMember {
        "| "@ + r.left
    } else {
        r.left
    }
}

/// How many arguments have to be given, and how many there are.
pub open spec fn line_arity(r: RowModel) -> Option<Seq<char>> {
    if r.args.len() == 0 {
        None
    } else {
        Some("("@ + decimal(r.required_args) + "/"@ + decimal(r.args.len()) + ")"@)
    }
}

/// The reason of a deprecation, or that there is one.
pub open spec fn line_note(r: RowModel) -> Option<Seq<char>> {
    if !r.deprecated {
        None
    } else {
        match r.deprecation_reason {
            Some(reason) => Some(reason),
            None => Some("Deprecated"@),
        }
    }
}

/// The wash behind a line: a pin goes before an expiry, and that before a deprecation.
pub open spec fn line_tint(r: RowModel, pinned: bool) -> Tint {
    if pinned {
        Tint::Pinned
    } else if r.until_expired {
        Tint::Expired
    } else if r.deprecated {
        Tint::Deprecated
    } else {
        Tint::Plain
    }
}

/// `g` is the first field or enum value that is shown in the row.
pub open spec fn first_shown(map: Seq<Option<u32>>, row: int, g: Option<usize>) -> bool {
    match g {
        Some(at) => {
            &&& at < map.len()
            &&& map[at as int] matches Some(d) && d == row
            &&& forall|k: int| 0 <= k < at ==> !(#[trigger] map[k] matches Some(d) && d == row)
        },
        None => forall|k: int|
            0 <= k < map.len() ==> !(#[trigger] map[k] matches Some(d) && d == row),
    }
}

/// The line for the row at `row`.
pub open spec fn is_line(c: CardModel, row: int, pinned: bool, l: FieldLine) -> bool {
    let r = c.rows[row];
    &&& l.label@ == line_label(r)
    &&& l.arity.deep_view() == line_arity(r)
    &&& l.note.deep_view() == line_note(r)
    &&& l.tint == line_tint(r, pinned)
    &&& first_shown(c.row_map, row, l.graph_row)
}

fn graph_row_of(map: &Vec<Option<u32>>, row: usize) -> (r: Option<usize>)
    ensures
        first_shown(map@, row as int, r),
{
    let mut k: usize = 0;
    while k < map.len()
        invariant
            k <= map@.len(),
            forall|j: int| 0 <= j < k ==> !(#[trigger] map@[j] matches Some(d) && d == row),
        decreases map@.len() - k,
    {
        match map[k] {
            Some(d) => {
                if d as usize == row {
                    return Some(k);
                }
            },
            None => {},
        }
        k = k + 1;
    }
    None
}

/// The line for the row at `row` of a card's details.
pub fn field_line(card: &Card, row: usize, pinned: bool) -> (r: FieldLine)
    requires
        row < card.rows@.len(),
    ensures
        is_line(card.deep_view(), row as int, pinned, r),
{
    let it = &card.rows[row];
    let ghost m = it.deep_view();
    assert(card.deep_view().rows[row as int] == m);
    let label = match it.kind {
        RowKind::UnionMember => {
            let mut t = "| ".to_owned();
            t.append(it.left.as_str());
            t
        },
        _ => it.left.as_str().to_owned(),
    };
    let count: usize = it.args.len();
    assert(m.args.len() == count);
    let arity: Option<String> = if count == 0 {
        None
    } else {
        let mut t = "(".to_owned();
        t.append(decimal_string(it.required_args).as_str());
        t.append("/");
        t.append(decimal_string(count).as_str());
        t.append(")");
        Some(t)
    };
    let note: Option<String> = if !it.deprecated {
        None
    } else {
        match &it.deprecation_reason {
            Some(reason) => Some(reason.as_str().to_owned()),
            None => Some("Deprecated".to_owned()),
        }
    };
    let tint: Tint = if pinned {
        Tint::Pinned
    } else if it.until_expired {
        Tint::Expired
    } else if it.deprecated {
        Tint::Deprecated
    } else {
        Tint::Plain
    };
    FieldLine { label, arity, note, tint, graph_row: graph_row_of(&card.row_map, row) }
}

/// A line leads back to its own row: the field or enum value that it stands for is shown there.
pub proof fn lines_find_their_rows(c: CardModel, row: int, pinned: bool, l: FieldLine)
    requires
        is_line(c, row, pinned, l),
    ensures
        l.graph_row matches Some(g) ==> (c.shown_row(g as int) matches Some(d) && d == row),
{
}

/// What a click on a line does.
#[derive(Debug, Clone, Copy, PartialEq, Eq, Structural)]
pub enum LineClick {
    Nothing,
    /// Show another type.
    Go(u32),
    /// Show this type with the row highlighted.
    Show(Option<usize>),
}

/// What a click on a line does: a member of a union leads to its type, anything else is highlighted.
pub fn line_click(card: &Card, row: usize) -> (r: LineClick)
    requires
        row < card.rows@.len(),
    ensures
        card.rows@[row as int].kind == RowKind::UnionMember ==> r == (
        match card.rows@[row as int].target {
            Some(t) => LineClick::Go(t),
            None => LineClick::Nothing,
        }),
        card.rows@[row as int].kind != RowKind::UnionMember ==> (r matches LineClick::Show(g)
            && first_shown(card.row_map@, row as int, g)),
{
    let it = &card.rows[row];
    match it.kind {
        RowKind::UnionMember => match it.target {
            Some(t) => LineClick::Go(t),
            None => LineClick::Nothing,
        },
        _ => LineClick::Show(graph_row_of(&card.row_map, row)),
    }
}

/// What the details say of a type without rows.
pub fn no_rows_text(kind: NodeKind) -> (r: &'static str)
    ensures
        r@ == (if kind == NodeKind::Enum {
            "no values"@
        } else {
            "no fields"@
        }),
{
    match kind {
        NodeKind::Enum => "no values",
        _ => "no fields",
    }
}

// ── search hits ────────────────────────────────────────────────────────────

/// The tag before an excerpt.
pub fn snippet_tag(kind: Option<SnippetKind>) -> (r: &'static str)
    ensures
        r@ == (if kind == Some(SnippetKind::DeprecationReason) {
            "deprecated"@
        } else {
            "desc"@
        }),
{
    match kind {
        Some(SnippetKind::DeprecationReason) => "deprecated",
        _ => "desc",
    }
}

/// A chip of the kind filter.
#[derive(Debug, Clone, Copy, PartialEq, Eq, Structural)]
pub struct Chip {
    pub kind: NodeKind,
    /// How many hits are of the kind.
    pub count: usize,
    pub active: bool,
}

/// The kinds in the order of their chips.
pub open spec fn chip_order() -> Seq<NodeKind> {
    seq![
        NodeKind::Object,
        NodeKind::Interface,
        NodeKind::Union,
        NodeKind::Enum,
        NodeKind::Scalar,
        NodeKind::Input,
    ]
}

/// The chips of the first `n` kinds: one for each kind that has hits.
pub open spec fn chips_of(kinds: Seq<NodeKind>, filter: Seq<NodeKind>, n: nat) -> Seq<Chip>
    decreases n,
{
    if n == 0 {
        Seq::empty()
    } else {
        let before = chips_of(kinds, filter, (n - 1) as nat);
        let kind = chip_order()[n - 1];
        if kind_count(kinds, kind) > 0 {
            before.push(
                Chip {
                    kind,
                    count: kind_count(kinds, kind) as usize,
                    active: filter.contains(kind),
                },
            )
        } else {
            before
        }
    }
}

/// The chips of the kind filter over the hits.
pub fn kind_chips(results: &Vec<SearchResult>, filter: &Vec<NodeKind>) -> (r: Vec<Chip>)
    ensures
        r@ == chips_of(hit_kinds(results@), filter@, 6),
{
    let ghost kinds = hit_kinds(results@);
    let order: [NodeKind; 6] = [
        NodeKind::Object,
        NodeKind::Interface,
        NodeKind::Union,
        NodeKind::Enum,
        NodeKind::Scalar,
        NodeKind::Input,
    ];
    let mut out: Vec<Chip> = Vec::new();
    let mut i: usize = 0;
    assert(order@ =~= chip_order());
    while i < 6
        invariant
            i <= 6,
            kinds == hit_kinds(results@),
            order@ == chip_order(),
            out@ == chips_of(kinds, filter@, i as nat),
        decreases 6 - i,
    {
        let kind: NodeKind = order[i];
        assert(kind == chip_order()[i as int]);
        let count: usize = count_kind(results, kind);
        if count > 0 {
            out.push(Chip { kind, count, active: has_kind(filter, kind) });
        }
        i = i + 1;
    }
    out
}

// ── headings ───────────────────────────────────────────────────────────────

/// A heading with a count in brackets, as in `Members (3)`.
pub fn counted_heading(words: &str, count: usize) -> (r: String)
    ensures
        r@ == words@ + " "@ + count_text(count as nat),
{
    let mut r = words.to_owned();
    r.append(" ");
    r.append(count_string(count).as_str());
    r
}

/// How many types no root reaches, in words; that there are none where there are none.
pub open spec fn orphan_text(total: nat) -> Seq<char> {
    if total == 0 {
        "No orphaned types found."@
    } else {
        decimal(total) + (if total == 1 {
            " type"@
        } else {
            " types"@
        }) + " unreachable from root"@
    }
}

/// The heading of the list of orphans.
pub fn orphan_heading(total: usize) -> (r: String)
    ensures
        r@ == orphan_text(total as nat),
{
    if total == 0 {
        return "No orphaned types found.".to_owned();
    }
    let mut r = decimal_string(total);
    r.append(if total == 1 { " type" } else { " types" });
    r.append(" unreachable from root");
    r
}

/// The name over the root picker: the schema's, or `Schema` where it has none.
pub fn schema_label(name: &str) -> (r: &str)
    ensures
        r@ == (if name@.len() == 0 {
            "Schema"@
        } else {
            name@
        }),
{
    if name.unicode_len() == 0 {
        "Schema"
    } else {
        name
    }
}

// ── which body is up ───────────────────────────────────────────────────────

/// What the sidebar shows below the search box.
#[derive(Debug, Clone, Copy, PartialEq, Eq, Structural)]
pub enum Body {
    History,
    Results,
    Browse,
}

/// The remembered searches show while the box has the focus and holds nothing; the hits while it
/// holds a query; the tree otherwise.
pub open spec fn body_shown(focused: bool, query: Seq<char>, searches: nat) -> Body {
    if trim(query).len() > 0 {
        Body::Results
    } else if focused && searches > 0 {
        Body::History
    } else {
        Body::Browse
    }
}

/// What the sidebar shows below the search box.
pub fn body_of(focused: bool, query: &str, searches: usize) -> (r: Body)
    ensures
        r == body_shown(focused, query@, searches as nat),
{
    let chars = chars_of(query);
    let (from, to) = trim_bounds(&chars);
    assert(trim(query@).len() == to - from);
    if from < to {
        Body::Results
    } else if focused && searches > 0 {
        Body::History
    } else {
        Body::Browse
    }
}

/// The routes of the app.
#[derive(Debug, Clone, Copy, PartialEq, Eq, Structural)]
pub enum Route {
    New,
    View,
    About,
}

/// The route that is shown: the about page where it is open, the landing screen where it is asked
/// for or no schema is loaded, and the schema otherwise.
pub open spec fn route_shown(about: bool, landing: bool, has_schema: bool) -> Route {
    if about {
        Route::About
    } else if landing || !has_schema {
        Route::New
    } else {
        Route::View
    }
}

/// The route that is shown.
pub fn route_of(about: bool, landing: bool, has_schema: bool) -> (r: Route)
    ensures
        r == route_shown(about, landing, has_schema),
{
    if about {
        Route::About
    } else if landing || !has_schema {
        Route::New
    } else {
        Route::View
    }
}

/// Whether the about page and the landing screen are asked for after a click on a route.
pub fn navigate(route: Route) -> (r: (bool, bool))
    ensures
        r == (route == Route::About, route == Route::New),
{
    match route {
        Route::New => (false, true),
        Route::View => (false, false),
        Route::About => (true, false),
    }
}

/// A click on a route leads there, where that can be shown.
pub proof fn clicks_lead_to_their_routes(route: Route, has_schema: bool)
    requires
        has_schema || route != Route::View,
    ensures
        route_shown(route == Route::About, route == Route::New, has_schema) == route,
{
}

} // verus!
