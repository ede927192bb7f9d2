//! The sidebar's state: the search box with its hits, the kind filter, the selected type and what it
//! is connected to, and how each of them changes.

use vstd::prelude::*;

use crate::browse::{
    are_connected, are_sections, context_sections, filter_hits, first_root, hit_kinds, keep_root,
    kept_hits, sorted_cards, toggle_kind, toggled, Sections,
};
use crate::cards::{Card, CardModel};
use crate::panels::numbers;
use crate::recents::{push_search, remove_search, searched, without};
use crate::search::{found, search, searchable, ResultModel, SearchResult};
use crate::slices::declared_roots;
use crate::sorting::arranged;
use crate::text::{chars_of, trim, trim_bounds};
use crate::textedit::{byte_len, TextEdit};
use crate::types::{NodeKind, NodeModel, ParsedGraph};
use crate::typing::{search_answers, search_press, Press, SearchReply};

verus! {

/// The state of the sidebar.
#[derive(Debug)]
pub struct Sidebar {
    /// The search box: text, caret and selection.
    pub search: TextEdit,
    /// All hits; the kind chips count over these.
    pub results: Vec<SearchResult>,
    /// The places of the hits that the kind filter lets through.
    pub filtered: Vec<usize>,
    pub kind_filter: Vec<NodeKind>,
    /// The active one of the filtered hits.
    pub active: usize,
    /// The remembered searches.
    pub history: Vec<String>,
    /// The card whose details are shown.
    pub selected: Option<u32>,
    /// The card and display row that are highlighted.
    pub pinned: Option<(u32, usize)>,
    pub root_pick: Option<String>,
    pub sections: Sections,
    /// The cards by name.
    pub all_sorted: Vec<usize>,
}

/// The hits of a query; a blank one has none, and neither has one that cannot be scored.
pub open spec fn hits_of(nodes: Seq<NodeModel>, query: Seq<char>) -> Seq<ResultModel> {
    if trim(query).len() > 0 && searchable(nodes, query) {
        found(nodes, query)
    } else {
        Seq::empty()
    }
}

/// Nothing is listed.
pub open spec fn no_sections(s: Sections) -> bool {
    s.implementers@.len() == 0 && s.union_members@.len() == 0 && s.referenced_by@.len() == 0
}

/// The cards by name.
pub open spec fn cards_by_name(cards: Seq<CardModel>) -> Seq<usize> {
    arranged(
        cards.map_values(|c: CardModel| (c.name, Seq::<char>::empty())),
        numbers(cards.len()),
    )
}

/// The first declared root.
pub open spec fn default_root(graph: ParsedGraph) -> Option<Seq<char>> {
    let names = declared_roots(graph.root_types.deep_view());
    if names.len() > 0 {
        Some(names[0])
    } else {
        None
    }
}

impl Sidebar {
    /// The hits are those of the text in the box, filtered by kind, and the first is active.
    pub open spec fn is_fresh(self, graph: ParsedGraph) -> bool {
        &&& self.results.deep_view() == hits_of(graph.deep_view().nodes, self.search.text@)
        &&& self.filtered@ == kept_hits(hit_kinds(self.results@), self.kind_filter@)
        &&& self.active == 0
    }

    /// The filtered hits are hits.
    pub open spec fn names_hits(self) -> bool {
        forall|i: int|
            0 <= i < self.filtered@.len() ==> (#[trigger] self.filtered@[i]) < self.results@.len()
    }

    /// The search box is empty.
    pub open spec fn has_empty_box(self) -> bool {
        &&& self.search.text@ == Seq::<char>::empty()
        &&& self.search.cursor == 0
        &&& self.search.anchor is None
    }

    /// The browsing part is as it was: what is selected, the sections and the roots.
    pub open spec fn browses_as(self, other: Sidebar) -> bool {
        &&& self.selected == other.selected
        &&& self.pinned == other.pinned
        &&& self.root_pick == other.root_pick
        &&& self.sections == other.sections
        &&& self.all_sorted == other.all_sorted
    }

    /// The card is selected: its sections are listed, and the row is pinned where it is shown.
    pub open spec fn has_selected(self, cards: Seq<CardModel>, card: u32, row: Option<usize>) -> bool {
        &&& self.selected == Some(card)
        &&& self.pinned == (match row {
            Some(g) => match cards[card as int].shown_row(g as int) {
                Some(d) => Some((card, d as usize)),
                None => None,
            },
            None => None,
        })
        &&& are_sections(self.sections, cards, card)
    }

    /// A sidebar for a schema slice, with the searches remembered from before.
    pub fn new(graph: &ParsedGraph, cards: &Vec<Card>, history: Vec<String>) -> (r: Self)
        ensures
            r.has_empty_box(),
            r.search.well_formed(),
            r.is_fresh(*graph),
            r.names_hits(),
            r.kind_filter@.len() == 0,
            r.history == history,
            r.selected is None,
            r.pinned is None,
            r.root_pick.deep_view() == default_root(*graph),
            no_sections(r.sections),
            r.all_sorted@ == cards_by_name(cards.deep_view()),
    {
        let mut search = TextEdit::default();
        search.clear();
        let mut s = Sidebar {
            search,
            results: Vec::new(),
            filtered: Vec::new(),
            kind_filter: Vec::new(),
            active: 0,
            history,
            selected: None,
            pinned: None,
            root_pick: first_root(&graph.root_types),
            sections: Sections {
                implementers: Vec::new(),
                union_members: Vec::new(),
                referenced_by: Vec::new(),
            },
            all_sorted: sorted_cards(cards),
        };
        s.refresh(graph);
        s
    }

    /// Runs the search again.
    pub fn refresh(&mut self, graph: &ParsedGraph)
        ensures
            final(self).is_fresh(*graph),
            final(self).names_hits(),
            final(self).search == old(self).search,
            final(self).kind_filter == old(self).kind_filter,
            final(self).history == old(self).history,
            final(self).browses_as(*old(self)),
    {
        let chars = chars_of(self.search.text.as_str());
        let (from, to) = trim_bounds(&chars);
        let none: Vec<SearchResult> = Vec::new();
        assert(none.deep_view() =~= Seq::<ResultModel>::empty());
        self.results = if from == to {
            assert(trim(self.search.text@).len() == 0);
            none
        } else {
            assert(trim(self.search.text@).len() > 0);
            match search(graph, self.search.text.as_str()) {
                Some(hits) => hits,
                None => none,
            }
        };
        self.filtered = filter_hits(&self.results, &self.kind_filter);
        proof {
            let kinds = hit_kinds(self.results@);
            assert(self.results@.len() == self.results.len());
            assert forall|i: int| 0 <= i < self.filtered@.len() implies (#[trigger] self.filtered@[i])
                < self.results@.len() by {
                filtered_hits_are_hits(kinds, self.kind_filter@, i);
            }
        }
        self.active = 0;
    }

    /// Puts another text in the search box.
    pub fn set_query(&mut self, query: String, graph: &ParsedGraph)
        ensures
            final(self).is_fresh(*graph),
            final(self).names_hits(),
            final(self).search.text@ == query@,
            final(self).search.cursor == byte_len(query@),
            final(self).search.anchor is None,
            final(self).search.well_formed(),
            final(self).kind_filter == old(self).kind_filter,
            final(self).history == old(self).history,
            final(self).browses_as(*old(self)),
    {
        self.search.set_text(query);
        self.refresh(graph);
    }

    /// A click on the chip of a kind.
    pub fn toggle_kind(&mut self, kind: NodeKind, graph: &ParsedGraph)
        ensures
            final(self).is_fresh(*graph),
            final(self).names_hits(),
            final(self).kind_filter@ == toggled(old(self).kind_filter@, kind),
            final(self).search == old(self).search,
            final(self).history == old(self).history,
            final(self).browses_as(*old(self)),
    {
        let mut filter: Vec<NodeKind> = Vec::new();
        std::mem::swap(&mut filter, &mut self.kind_filter);
        self.kind_filter = toggle_kind(filter, kind);
        self.refresh(graph);
    }

    /// Lets all kinds through.
    pub fn clear_kind_filter(&mut self, graph: &ParsedGraph)
        ensures
            final(self).is_fresh(*graph),
            final(self).names_hits(),
            final(self).kind_filter@.len() == 0,
            final(self).search == old(self).search,
            final(self).history == old(self).history,
            final(self).browses_as(*old(self)),
    {
        self.kind_filter = Vec::new();
        self.refresh(graph);
    }

    /// Shows another slice. The picked root stays while the schema declares it: picking one leads
    /// here, and falling back to the first would undo the pick.
    pub fn set_model(&mut self, graph: &ParsedGraph, cards: &Vec<Card>)
        ensures
            final(self).has_empty_box(),
            final(self).search.well_formed(),
            final(self).is_fresh(*graph),
            final(self).names_hits(),
            final(self).kind_filter@.len() == 0,
            final(self).history == old(self).history,
            final(self).selected is None,
            final(self).pinned is None,
            final(self).root_pick.deep_view() == (match old(self).root_pick {
                Some(n) => if declared_roots(graph.root_types.deep_view()).contains(n@) {
                    Some(n@)
                } else {
                    default_root(*graph)
                },
                None => default_root(*graph),
            }),
            no_sections(final(self).sections),
            final(self).all_sorted@ == cards_by_name(cards.deep_view()),
    {
        self.all_sorted = sorted_cards(cards);
        let mut pick: Option<String> = None;
        std::mem::swap(&mut pick, &mut self.root_pick);
        self.root_pick = keep_root(&graph.root_types, pick);
        self.search.clear();
        self.kind_filter = Vec::new();
        self.selected = None;
        self.pinned = None;
        self.sections = Sections {
            implementers: Vec::new(),
            union_members: Vec::new(),
            referenced_by: Vec::new(),
        };
        self.refresh(graph);
    }

    /// Shows the details of a card; `row` is a field or enum value of its type.
    pub fn select_card(&mut self, cards: &Vec<Card>, card: u32, row: Option<usize>)
        requires
            are_connected(cards.deep_view()),
            card < cards@.len(),
        ensures
            final(self).has_selected(cards.deep_view(), card, row),
            final(self).search == old(self).search,
            final(self).results == old(self).results,
            final(self).filtered == old(self).filtered,
            final(self).kind_filter == old(self).kind_filter,
            final(self).active == old(self).active,
            final(self).history == old(self).history,
            final(self).root_pick == old(self).root_pick,
            final(self).all_sorted == old(self).all_sorted,
    {
        self.selected = Some(card);
        assert(cards.deep_view()[card as int] == cards@[card as int].deep_view());
        self.pinned = match row {
            Some(g) => match cards[card as usize].display_row(g) {
                Some(d) => Some((card, d)),
                None => None,
            },
            None => None,
        };
        self.sections = context_sections(cards, card);
    }

    /// Takes the hit at `ix` of the filtered ones: remembers the query, shows the hit's card and
    /// empties the box. Gives the card and row to go to; nothing happens where there is no such hit,
    /// or its type has no card.
    pub fn select_result(&mut self, graph: &ParsedGraph, cards: &Vec<Card>, ix: usize) -> (r: Option<
        (u32, Option<usize>),
    >)
        requires
            are_connected(cards.deep_view()),
            old(self).names_hits(),
        ensures
            r is Some <==> ix < old(self).filtered@.len() && old(
                self,
            ).results@[old(self).filtered@[ix as int] as int].node_index < cards@.len(),
            r is None ==> *final(self) == *old(self),
            r matches Some((card, row)) ==> {
                let hit = old(self).results@[old(self).filtered@[ix as int] as int];
                &&& card == hit.node_index
                &&& row == hit.row_index
                &&& final(self).has_selected(cards.deep_view(), card, row)
                &&& final(self).has_empty_box()
                &&& final(self).search.well_formed()
                &&& final(self).is_fresh(*graph)
                &&& final(self).names_hits()
                &&& final(self).history.deep_view() == searched(
                    old(self).history.deep_view(),
                    old(self).search.text@,
                )
                &&& final(self).kind_filter == old(self).kind_filter
                &&& final(self).root_pick == old(self).root_pick
                &&& final(self).all_sorted == old(self).all_sorted
            },
    {
        if ix >= self.filtered.len() {
            return None;
        }
        let at: usize = self.filtered[ix];
        let card: usize = self.results[at].node_index;
        let row = self.results[at].row_index;
        if card >= cards.len() {
            return None;
        }
        let mut list: Vec<String> = Vec::new();
        std::mem::swap(&mut list, &mut self.history);
        self.history = push_search(list, self.search.text.as_str());
        self.select_card(cards, card as u32, row);
        self.search.clear();
        self.refresh(graph);
        Some((card as u32, row))
    }

    /// Picks a root operation.
    pub fn pick_root(&mut self, name: String)
        ensures
            final(self).root_pick == Some(name),
            final(self).search == old(self).search,
            final(self).results == old(self).results,
            final(self).filtered == old(self).filtered,
            final(self).kind_filter == old(self).kind_filter,
            final(self).active == old(self).active,
            final(self).history == old(self).history,
            final(self).selected == old(self).selected,
            final(self).pinned == old(self).pinned,
            final(self).sections == old(self).sections,
            final(self).all_sorted == old(self).all_sorted,
    {
        self.root_pick = Some(name);
    }

    /// Takes a search out of those remembered.
    pub fn remove_history(&mut self, query: &str)
        ensures
            final(self).history.deep_view() == without(old(self).history.deep_view(), query@),
            final(self).search == old(self).search,
            final(self).results == old(self).results,
            final(self).filtered == old(self).filtered,
            final(self).kind_filter == old(self).kind_filter,
            final(self).active == old(self).active,
            final(self).browses_as(*old(self)),
    {
        self.history = remove_search(&self.history, query);
    }

    /// Forgets all searches.
    pub fn clear_history(&mut self)
        ensures
            final(self).history@.len() == 0,
            final(self).search == old(self).search,
            final(self).results == old(self).results,
            final(self).filtered == old(self).filtered,
            final(self).kind_filter == old(self).kind_filter,
            final(self).active == old(self).active,
            final(self).browses_as(*old(self)),
    {
        self.history = Vec::new();
    }

    /// A key press in the search box. Besides what the box answers it gives the card and row to go
    /// to, where a hit was taken.
    pub fn press(&mut self, p: &Press, graph: &ParsedGraph, cards: &Vec<Card>) -> (r: (
        SearchReply,
        Option<(u32, Option<usize>)>,
    ))
        requires
            old(self).search.well_formed(),
            are_connected(cards.deep_view()),
            old(self).names_hits(),
        ensures
            has_pressed(*old(self), *final(self), *p, *graph, cards.deep_view(), r.0, r.1),
            final(self).names_hits(),
    {
        let ghost before = *self;
        let hits: usize = self.filtered.len();
        let reply = search_press(&mut self.search, p, self.active, hits);
        let mut to: Option<(u32, Option<usize>)> = None;
        match &reply {
            SearchReply::Changed | SearchReply::Taken(_) | SearchReply::Left => {
                self.refresh(graph);
            },
            SearchReply::Active(i) => {
                self.active = *i;
            },
            SearchReply::Picked(i) => {
                assert(self.search == before.search);
                to = self.select_result(graph, cards, *i);
            },
            SearchReply::Ignored | SearchReply::Copied(_) | SearchReply::Moved => {},
        }
        (reply, to)
    }
}

/// What a key press in the search box leaves behind: after an edit the search was run again; the
/// arrow keys moved the active hit; enter took it.
pub open spec fn has_pressed(
    old: Sidebar,
    new: Sidebar,
    p: Press,
    graph: ParsedGraph,
    cards: Seq<CardModel>,
    reply: SearchReply,
    to: Option<(u32, Option<usize>)>,
) -> bool {
    let hits = old.filtered@.len() as usize;
    match reply {
        SearchReply::Picked(i) => {
            &&& search_answers(old.search, old.search, p, old.active, hits, reply)
            &&& to is Some <==> i < old.filtered@.len()
                && old.results@[old.filtered@[i as int] as int].node_index < cards.len()
            &&& to is None ==> new == old
            &&& to matches Some((card, row)) ==> {
                let hit = old.results@[old.filtered@[i as int] as int];
                &&& card == hit.node_index
                &&& row == hit.row_index
                &&& new.has_selected(cards, card, row)
                &&& new.has_empty_box()
                &&& new.is_fresh(graph)
                &&& new.history.deep_view() == searched(old.history.deep_view(), old.search.text@)
                &&& new.kind_filter == old.kind_filter
                &&& new.root_pick == old.root_pick
                &&& new.all_sorted == old.all_sorted
            }
        },
        _ => {
            &&& search_answers(old.search, new.search, p, old.active, hits, reply)
            &&& to is None
            &&& new.kind_filter == old.kind_filter
            &&& new.history == old.history
            &&& new.browses_as(old)
            &&& (match reply {
                SearchReply::Changed | SearchReply::Taken(_) | SearchReply::Left => new.is_fresh(
                    graph,
                ),
                SearchReply::Active(i) => new.active == i && new.results == old.results
                    && new.filtered == old.filtered,
                _ => new.active == old.active && new.results == old.results && new.filtered
                    == old.filtered,
            })
        },
    }
}

/// A fresh list of filtered hits names hits that are there.
pub proof fn filtered_hits_are_hits(kinds: Seq<NodeKind>, filter: Seq<NodeKind>, i: int)
    requires
        kinds.len() <= usize::MAX,
        0 <= i < kept_hits(kinds, filter).len(),
    ensures
        kept_hits(kinds, filter)[i] < kinds.len(),
    decreases kinds.len(),
{
    if i < kept_hits(kinds.drop_last(), filter).len() {
        filtered_hits_are_hits(kinds.drop_last(), filter, i);
    }
}

} // verus!
