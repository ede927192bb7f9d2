//! The floating tooltip: what it says of the thing under the pointer.

use vstd::prelude::*;

use crate::cards::{Card, RowModel};
use crate::lists::copy_text;
use crate::model::{Link, LinkModel};
use crate::text::{decimal, decimal_string};
use crate::trail::{row_label, row_name, Over};

verus! {

/// How many labels of a bundle are listed.
pub const LISTED_LABELS: usize = 10;

/// What a tooltip shows.
#[derive(Debug, Clone, PartialEq, Eq)]
pub struct Tooltip {
    pub title: String,
    pub description: Option<String>,
    pub deprecation: Option<String>,
    /// The sunset date of the deprecation has passed.
    pub expired: bool,
}

/// Model of a [`Tooltip`].
#[verifier::ext_equal]
pub struct TipModel {
    pub title: Seq<char>,
    pub description: Option<Seq<char>>,
    pub deprecation: Option<Seq<char>>,
    pub expired: bool,
}

impl DeepView for Tooltip {
    type V = TipModel;

    open spec fn deep_view(&self) -> TipModel {
        TipModel {
            title: self.title@,
            description: self.description.deep_view(),
            deprecation: self.deprecation.deep_view(),
            expired: self.expired,
        }
    }
}

/// A tooltip that only has a title.
pub open spec fn bare_tip(title: Seq<char>) -> TipModel {
    TipModel { title, description: None, deprecation: None, expired: false }
}

/// What a tooltip says of a deprecation: the reason, or that there is one.
pub open spec fn deprecation_note(r: RowModel) -> Option<Seq<char>> {
    match r.deprecation_reason {
        Some(reason) => Some(reason),
        None => if r.deprecated {
            Some("deprecated"@)
        } else {
            None
        },
    }
}

/// The tooltip of a row; there is none where there is nothing to say but its name.
pub open spec fn row_tip(card: Seq<char>, r: RowModel) -> Option<TipModel> {
    if r.description is Some || deprecation_note(r) is Some {
        Some(
            TipModel {
                title: row_name(card, r),
                description: r.description,
                deprecation: deprecation_note(r),
                expired: r.until_expired,
            },
        )
    } else {
        None
    }
}

/// The tooltip of what the pointer is over.
pub open spec fn tip_over(over: Over) -> Option<TipModel> {
    match over {
        Over::Nothing => None,
        Over::Header(c) => match c.description.deep_view() {
            Some(d) => Some(
                TipModel {
                    title: c.kind_label@ + " "@ + c.name@,
                    description: Some(d),
                    deprecation: None,
                    expired: false,
                },
            ),
            None => None,
        },
        Over::Row(c, i) => row_tip(c.name@, c.rows@[i as int].deep_view()),
        Over::Implements(c, i) => Some(bare_tip("implements "@ + c.implements@[i as int]@)),
        Over::MemberOfUnion(c, i) => Some(
            bare_tip("member of union "@ + c.member_of_unions@[i as int]@),
        ),
    }
}

/// The first `n` labels, with commas between them.
pub open spec fn listed_labels(labels: Seq<Seq<char>>, n: nat) -> Seq<char>
    decreases n,
{
    if n == 0 {
        Seq::empty()
    } else if n == 1 {
        labels[0]
    } else {
        listed_labels(labels, (n - 1) as nat) + ", "@ + labels[n - 1]
    }
}

/// The labels of a bundle: the first few, and how many more there are.
pub open spec fn bundle_text(labels: Seq<Seq<char>>) -> Seq<char> {
    if labels.len() > LISTED_LABELS {
        listed_labels(labels, LISTED_LABELS as nat) + " … +"@ + decimal(
            (labels.len() - LISTED_LABELS) as nat,
        )
    } else {
        listed_labels(labels, labels.len())
    }
}

/// The tooltip of a link: where it leads from and to, how many edges it bundles, and their labels.
pub open spec fn link_tip(from: Seq<char>, to: Seq<char>, labels: Seq<Seq<char>>) -> TipModel {
    let text = bundle_text(labels);
    TipModel {
        title: from + " → "@ + to + (if labels.len() > 1 {
            "  ·  ×"@ + decimal(labels.len())
        } else {
            Seq::empty()
        }),
        description: if text.len() == 0 {
            None
        } else {
            Some(text)
        },
        deprecation: None,
        expired: false,
    }
}

/// The ends of a link are cards.
pub open spec fn joins_cards(l: LinkModel, cards: nat) -> bool {
    l.from < cards && l.to < cards
}

/// The tooltip: that of what the pointer is over, unless the canvas is being dragged, or else that of
/// the link under the pointer.
pub open spec fn tooltip(
    cards: Seq<Card>,
    dragging: bool,
    over: Over,
    link: Option<LinkModel>,
) -> Option<TipModel> {
    if !dragging && tip_over(over) is Some {
        tip_over(over)
    } else {
        match link {
            Some(l) => Some(
                link_tip(cards[l.from as int].name@, cards[l.to as int].name@, l.labels),
            ),
            None => None,
        }
    }
}

fn bare(title: String) -> (r: Option<Tooltip>)
    ensures
        r.deep_view() == Some(bare_tip(title@)),
{
    let tip = Tooltip { title, description: None, deprecation: None, expired: false };
    assert(tip.deep_view() =~= bare_tip(title@));
    Some(tip)
}

fn over_tooltip(over: &Over) -> (r: Option<Tooltip>)
    requires
        over.is_there(),
    ensures
        r.deep_view() == tip_over(*over),
{
    match over {
        Over::Nothing => None,
        Over::Header(c) => match &c.description {
            Some(d) => {
                let mut title = c.kind_label.to_owned();
                title.append(" ");
                title.append(c.name.as_str());
                let tip = Tooltip {
                    title,
                    description: Some(d.as_str().to_owned()),
                    deprecation: None,
                    expired: false,
                };
                assert(tip.deep_view() =~= tip_over(*over)->0);
                Some(tip)
            },
            None => None,
        },
        Over::Row(c, i) => {
            let row = &c.rows[*i];
            let deprecation: Option<String> = match &row.deprecation_reason {
                Some(reason) => Some(reason.as_str().to_owned()),
                None => if row.deprecated {
                    Some("deprecated".to_owned())
                } else {
                    None
                },
            };
            assert(deprecation.deep_view() == deprecation_note(row.deep_view()));
            if row.description.is_some() || deprecation.is_some() {
                let tip = Tooltip {
                    title: row_label(c, *i),
                    description: copy_text(&row.description),
                    deprecation,
                    expired: row.until_expired,
                };
                assert(tip.deep_view() =~= row_tip(c.name@, row.deep_view())->0);
                Some(tip)
            } else {
                None
            }
        },
        Over::Implements(c, i) => {
            let mut title = "implements ".to_owned();
            title.append(c.implements[*i].as_str());
            bare(title)
        },
        Over::MemberOfUnion(c, i) => {
            let mut title = "member of union ".to_owned();
            title.append(c.member_of_unions[*i].as_str());
            bare(title)
        },
    }
}

fn bundle_string(labels: &Vec<String>) -> (r: String)
    ensures
        r@ == bundle_text(labels.deep_view()),
{
    let ghost all = labels.deep_view();
    let count: usize = labels.len();
    let n: usize = if count > LISTED_LABELS { LISTED_LABELS } else { count };
    let mut r = String::new();
    let mut i: usize = 0;
    assert(r@ =~= listed_labels(all, 0));
    while i < n
        invariant
            i <= n <= count == labels@.len(),
            all == labels.deep_view(),
            r@ == listed_labels(all, i as nat),
        decreases n - i,
    {
        assert(all[i as int] == labels@[i as int]@);
        if i > 0 {
            r.append(", ");
        }
        r.append(labels[i].as_str());
        i = i + 1;
        assert(r@ =~= listed_labels(all, i as nat));
    }
    if count > LISTED_LABELS {
        r.append(" … +");
        r.append(decimal_string(count - LISTED_LABELS).as_str());
    }
    r
}

fn link_tooltip(from: &str, to: &str, labels: &Vec<String>) -> (r: Tooltip)
    ensures
        r.deep_view() == link_tip(from@, to@, labels.deep_view()),
{
    let mut title = from.to_owned();
    title.append(" → ");
    title.append(to);
    let ghost base = title@;
    if labels.len() > 1 {
        title.append("  ·  ×");
        title.append(decimal_string(labels.len()).as_str());
    }
    assert(title@ =~= link_tip(from@, to@, labels.deep_view()).title);
    let text = bundle_string(labels);
    let description: Option<String> = if text.as_str().unicode_len() == 0 {
        None
    } else {
        Some(text)
    };
    let tip = Tooltip { title, description, deprecation: None, expired: false };
    assert(tip.deep_view() =~= link_tip(from@, to@, labels.deep_view()));
    tip
}

/// The tooltip of what the pointer is over, or else of the link under it.
pub fn tooltip_of(cards: &Vec<Card>, dragging: bool, over: &Over, link: Option<&Link>) -> (r: Option<
    Tooltip,
>)
    requires
        over.is_there(),
        link matches Some(l) ==> joins_cards(l.deep_view(), cards@.len()),
    ensures
        r.deep_view() == tooltip(
            cards@,
            dragging,
            *over,
            match link {
                Some(l) => Some(l.deep_view()),
                None => None,
            },
        ),
{
    if !dragging {
        let tip = over_tooltip(over);
        if tip.is_some() {
            return tip;
        }
    }
    match link {
        Some(l) => {
            let from = cards[l.from as usize].name.as_str();
            let to = cards[l.to as usize].name.as_str();
            Some(link_tooltip(from, to, &l.labels))
        },
        None => None,
    }
}

} // verus!
