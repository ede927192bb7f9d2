//! What a document says as a whole: repeated declarations, union membership and root types.

use vstd::prelude::*;

use crate::document::{Definition, DefinitionModel};
use crate::extensions::{node_names, or_empty};
use crate::lists::has_name;
use crate::sdl::{kind_of, kind_of_model};
use crate::text::{decimal, decimal_string, same, sort_texts, sorted};
use crate::types::{no_roots, GraphNodeData, NodeKind, NodeModel, RootModel, RootTypeMap};

verus! {

// ── duplicate and conflicting declarations ─────────────────────────────────

/// One declaration: its name, its kind and where it stands.
pub struct Decl {
    pub name: String,
    pub kind: NodeKind,
    pub line: usize,
    pub column: usize,
}

/// Model of a [`Decl`].
#[verifier::ext_equal]
pub struct DeclModel {
    pub name: Seq<char>,
    pub kind: NodeKind,
    pub line: usize,
    pub column: usize,
}

impl DeepView for Decl {
    type V = DeclModel;

    open spec fn deep_view(&self) -> DeclModel {
        DeclModel { name: self.name@, kind: self.kind, line: self.line, column: self.column }
    }
}

/// The type declarations of a document, extensions left out.
pub open spec fn decls_of(doc: Seq<DefinitionModel>) -> Seq<DeclModel>
    decreases doc.len(),
{
    if doc.len() == 0 {
        Seq::empty()
    } else {
        let before = decls_of(doc.drop_last());
        match doc.last() {
            DefinitionModel::Type(t) => if t.extend {
                before
            } else {
                before.push(
                    DeclModel {
                        name: t.name,
                        kind: kind_of_model(t.kind),
                        line: t.line,
                        column: t.column,
                    },
                )
            },
            _ => before,
        }
    }
}

/// The declarations of one name.
pub open spec fn named_decls(decls: Seq<DeclModel>, name: Seq<char>) -> Seq<DeclModel>
    decreases decls.len(),
{
    if decls.len() == 0 {
        Seq::empty()
    } else {
        let before = named_decls(decls.drop_last(), name);
        if decls.last().name == name { before.push(decls.last()) } else { before }
    }
}

/// The declared names, each once, in the order of their first declaration.
pub open spec fn distinct_names(decls: Seq<DeclModel>) -> Seq<Seq<char>>
    decreases decls.len(),
{
    if decls.len() == 0 {
        Seq::empty()
    } else {
        let before = distinct_names(decls.drop_last());
        if before.contains(decls.last().name) { before } else { before.push(decls.last().name) }
    }
}

/// All declarations are of the kind of the first.
pub open spec fn one_kind(list: Seq<DeclModel>) -> bool {
    forall|i: int| 0 <= i < list.len() ==> (#[trigger] list[i]).kind == list[0].kind
}

/// The positions of declarations, `line:column`, each after its keyword where `with_kind`.
pub open spec fn positions_text(list: Seq<DeclModel>, with_kind: bool) -> Seq<char>
    decreases list.len(),
{
    if list.len() == 0 {
        Seq::empty()
    } else {
        let d = list.last();
        let before = if list.len() == 1 {
            Seq::empty()
        } else {
            positions_text(list.drop_last(), with_kind) + ", "@
        };
        let kind = if with_kind { d.kind.keyword() + " at "@ } else { Seq::empty() };
        before + kind + decimal(d.line as nat) + ":"@ + decimal(d.column as nat)
    }
}

/// The warning about a name declared more than once.
pub open spec fn repeated_decl_text(name: Seq<char>, list: Seq<DeclModel>) -> Seq<char> {
    if one_kind(list) {
        "Duplicate "@ + list[0].kind.keyword() + " \""@ + name + "\" at "@ + positions_text(
            list,
            false,
        )
    } else {
        "Conflicting declarations for \""@ + name + "\": "@ + positions_text(list, true)
    }
}

/// The warnings about the names among `names` that are declared more than once.
pub open spec fn repeated_decls(decls: Seq<DeclModel>, names: Seq<Seq<char>>) -> Seq<Seq<char>>
    decreases names.len(),
{
    if names.len() == 0 {
        Seq::empty()
    } else {
        let before = repeated_decls(decls, names.drop_last());
        let list = named_decls(decls, names.last());
        if list.len() < 2 {
            before
        } else {
            before.push(repeated_decl_text(names.last(), list))
        }
    }
}

/// The warnings about names that a document declares more than once.
pub open spec fn duplicate_warnings(doc: Seq<DefinitionModel>) -> Seq<Seq<char>> {
    repeated_decls(decls_of(doc), distinct_names(decls_of(doc)))
}

fn collect_decls(doc: &Vec<Definition>) -> (r: (Vec<Decl>, Vec<String>))
    ensures
        r.0.deep_view() == decls_of(doc.deep_view()),
        r.1.deep_view() == distinct_names(decls_of(doc.deep_view())),
{
    let ghost all = doc.deep_view();
    let mut decls: Vec<Decl> = Vec::new();
    let mut names: Vec<String> = Vec::new();
    let mut i: usize = 0;
    assert(all.take(0) =~= Seq::<DefinitionModel>::empty());
    assert(decls.deep_view() =~= Seq::<DeclModel>::empty());
    assert(names.deep_view() =~= Seq::<Seq<char>>::empty());
    while i < doc.len()
        invariant
            i <= doc@.len(),
            all == doc.deep_view(),
            decls.deep_view() == decls_of(all.take(i as int)),
            names.deep_view() == distinct_names(decls_of(all.take(i as int))),
        decreases doc@.len() - i,
    {
        assert(all.take(i as int + 1).drop_last() =~= all.take(i as int));
        assert(all[i as int] == doc@[i as int].deep_view());
        let ghost decls0 = decls.deep_view();
        let ghost names0 = names.deep_view();
        if let Definition::Type(t) = &doc[i] {
            if !t.extend {
                let d = Decl {
                    name: t.name.clone(),
                    kind: kind_of(&t.kind),
                    line: t.line,
                    column: t.column,
                };
                let ghost dm = d.deep_view();
                decls.push(d);
                assert(decls.deep_view() =~= decls0.push(dm));
                assert(decls0.push(dm).drop_last() =~= decls0);
                if !has_name(&names, t.name.as_str()) {
                    names.push(t.name.clone());
                    assert(names.deep_view() =~= names0.push(t.name@));
                }
            }
        }
        i = i + 1;
    }
    assert(all.take(i as int) =~= all);
    (decls, names)
}

/// The places of the declarations of one name.
fn places_of(decls: &Vec<Decl>, name: &str) -> (r: Vec<usize>)
    ensures
        r@.len() == named_decls(decls.deep_view(), name@).len(),
        forall|k: int|
            0 <= k < r@.len() ==> (#[trigger] r@[k]) < decls@.len() && decls.deep_view()[r@[k] as int]
                == named_decls(decls.deep_view(), name@)[k],
{
    let ghost all = decls.deep_view();
    let mut out: Vec<usize> = Vec::new();
    let mut i: usize = 0;
    assert(all.take(0) =~= Seq::<DeclModel>::empty());
    while i < decls.len()
        invariant
            i <= decls@.len(),
            all == decls.deep_view(),
            out@.len() == named_decls(all.take(i as int), name@).len(),
            forall|k: int|
                0 <= k < out@.len() ==> (#[trigger] out@[k]) < decls@.len() && all[out@[k] as int]
                    == named_decls(all.take(i as int), name@)[k],
        decreases decls@.len() - i,
    {
        assert(all.take(i as int + 1).drop_last() =~= all.take(i as int));
        assert(all[i as int] == decls@[i as int].deep_view());
        if same(decls[i].name.as_str(), name) {
            out.push(i);
        }
        i = i + 1;
    }
    assert(all.take(i as int) =~= all);
    out
}

fn positions(
    decls: &Vec<Decl>,
    at: &Vec<usize>,
    with_kind: bool,
    Ghost(list): Ghost<Seq<DeclModel>>,
) -> (r: String)
    requires
        at@.len() == list.len(),
        forall|k: int|
            0 <= k < at@.len() ==> (#[trigger] at@[k]) < decls@.len() && decls.deep_view()[at@[k] as int]
                == list[k],
    ensures
        r@ == positions_text(list, with_kind),
{
    let mut s = String::new();
    let mut k: usize = 0;
    assert(list.take(0) =~= Seq::<DeclModel>::empty());
    while k < at.len()
        invariant
            k <= at@.len(),
            at@.len() == list.len(),
            forall|k: int|
                0 <= k < at@.len() ==> (#[trigger] at@[k]) < decls@.len() && decls.deep_view()[at@[k] as int]
                    == list[k],
            s@ == positions_text(list.take(k as int), with_kind),
        decreases at@.len() - k,
    {
        let ghost s0 = s@;
        let j: usize = at[k];
        let d = &decls[j];
        proof {
            assert(decls.deep_view()[j as int] == d.deep_view());
            assert(list.take(k as int + 1).drop_last() =~= list.take(k as int));
            assert(list.take(k as int + 1).last() == d.deep_view());
        }
        if k > 0 {
            s.append(", ");
        }
        let ghost s1 = s@;
        if with_kind {
            s.append(d.kind.sdl_keyword());
            s.append(" at ");
        }
        assert(s@ =~= s1 + (if with_kind { d.kind.keyword() + " at "@ } else { Seq::empty() }));
        s.append(decimal_string(d.line).as_str());
        s.append(":");
        s.append(decimal_string(d.column).as_str());
        k = k + 1;
    }
    assert(list.take(k as int) =~= list);
    s
}

fn all_one_kind(
    decls: &Vec<Decl>,
    at: &Vec<usize>,
    Ghost(list): Ghost<Seq<DeclModel>>,
) -> (r: bool)
    requires
        at@.len() == list.len() > 0,
        forall|k: int|
            0 <= k < at@.len() ==> (#[trigger] at@[k]) < decls@.len() && decls.deep_view()[at@[k] as int]
                == list[k],
    ensures
        r == one_kind(list),
{
    let first: usize = at[0];
    let kind = decls[first].kind;
    assert(decls.deep_view()[first as int] == list[0]);
    let mut k: usize = 0;
    while k < at.len()
        invariant
            k <= at@.len(),
            at@.len() == list.len(),
            kind == list[0].kind,
            forall|k: int|
                0 <= k < at@.len() ==> (#[trigger] at@[k]) < decls@.len() && decls.deep_view()[at@[k] as int]
                    == list[k],
            forall|i: int| 0 <= i < k ==> (#[trigger] list[i]).kind == list[0].kind,
        decreases at@.len() - k,
    {
        let j: usize = at[k];
        assert(decls.deep_view()[j as int] == list[k as int]);
        if decls[j].kind != kind {
            return false;
        }
        k = k + 1;
    }
    true
}

/// Reports names that are declared more than once. Limited to type, interface, input, enum, union
/// and scalar: directives, `schema` and `extend` blocks do not count.
pub fn detect_duplicate_declarations(doc: &Vec<Definition>) -> (warnings: Vec<String>)
    ensures
        warnings.deep_view() == duplicate_warnings(doc.deep_view()),
{
    let (decls, names) = collect_decls(doc);
    let ghost ds = decls.deep_view();
    let ghost all = names.deep_view();
    let mut warnings: Vec<String> = Vec::new();
    let mut i: usize = 0;
    assert(all.take(0) =~= Seq::<Seq<char>>::empty());
    assert(warnings.deep_view() =~= Seq::<Seq<char>>::empty());
    while i < names.len()
        invariant
            i <= names@.len(),
            ds == decls.deep_view(),
            all == names.deep_view(),
            warnings.deep_view() == repeated_decls(ds, all.take(i as int)),
        decreases names@.len() - i,
    {
        assert(all.take(i as int + 1).drop_last() =~= all.take(i as int));
        assert(all[i as int] == names@[i as int]@);
        let at = places_of(&decls, names[i].as_str());
        let ghost list = named_decls(ds, all[i as int]);
        if at.len() >= 2 {
            let ghost before = warnings.deep_view();
            if all_one_kind(&decls, &at, Ghost(list)) {
                let first: usize = at[0];
                assert(ds[first as int] == list[0]);
                let mut s = "Duplicate ".to_owned();
                s.append(decls[first].kind.sdl_keyword());
                s.append(" \"");
                s.append(names[i].as_str());
                s.append("\" at ");
                s.append(positions(&decls, &at, false, Ghost(list)).as_str());
                warnings.push(s);
            } else {
                let mut s = "Conflicting declarations for \"".to_owned();
                s.append(names[i].as_str());
                s.append("\": ");
                s.append(positions(&decls, &at, true, Ghost(list)).as_str());
                warnings.push(s);
            }
            assert(warnings.deep_view() =~= before.push(repeated_decl_text(all[i as int], list)));
        }
        i = i + 1;
    }
    assert(all.take(i as int) =~= all);
    warnings
}

// ── union membership ───────────────────────────────────────────────────────

/// How often a union lists `member`, as that many copies of the union's name.
pub open spec fn listings(union_name: Seq<char>, members: Seq<Seq<char>>, member: Seq<char>) -> Seq<
    Seq<char>,
>
    decreases members.len(),
{
    if members.len() == 0 {
        Seq::empty()
    } else {
        let before = listings(union_name, members.drop_last(), member);
        if members.last() == member { before.push(union_name) } else { before }
    }
}

/// The names of the unions that list `member`, in node order.
pub open spec fn unions_listing(nodes: Seq<NodeModel>, member: Seq<char>) -> Seq<Seq<char>>
    decreases nodes.len(),
{
    if nodes.len() == 0 {
        Seq::empty()
    } else {
        let before = unions_listing(nodes.drop_last(), member);
        let n = nodes.last();
        if n.kind == NodeKind::Union {
            before + listings(n.name, or_empty(n.members), member)
        } else {
            before
        }
    }
}

/// An object that some union lists gets the sorted names of those unions.
pub open spec fn membership_node(nodes: Seq<NodeModel>, n: NodeModel) -> NodeModel {
    let unions = unions_listing(nodes, n.name);
    if n.kind == NodeKind::Object && unions.len() > 0 {
        NodeModel { member_of_unions: Some(sorted(unions)), ..n }
    } else {
        n
    }
}

/// Every object with the unions that list it.
pub open spec fn with_membership(nodes: Seq<NodeModel>) -> Seq<NodeModel> {
    nodes.map_values(|n: NodeModel| membership_node(nodes, n))
}

fn push_listings(n: &GraphNodeData, member: &str, out: &mut Vec<String>)
    ensures
        final(out).deep_view() == old(out).deep_view() + listings(
            n.name@,
            or_empty(n.members.deep_view()),
            member@,
        ),
{
    let ghost base = out.deep_view();
    match &n.members {
        None => {
            assert(base + Seq::<Seq<char>>::empty() =~= base);
        },
        Some(members) => {
            let ghost all = members.deep_view();
            let mut i: usize = 0;
            assert(all.take(0) =~= Seq::<Seq<char>>::empty());
            assert(base + Seq::<Seq<char>>::empty() =~= base);
            while i < members.len()
                invariant
                    i <= members@.len(),
                    all == members.deep_view(),
                    out.deep_view() == base + listings(n.name@, all.take(i as int), member@),
                decreases members@.len() - i,
            {
                assert(all.take(i as int + 1).drop_last() =~= all.take(i as int));
                assert(all[i as int] == members@[i as int]@);
                if same(members[i].as_str(), member) {
                    let ghost before = out.deep_view();
                    out.push(n.name.clone());
                    assert(out.deep_view() =~= before.push(n.name@));
                    assert(out.deep_view() =~= base + listings(
                        n.name@,
                        all.take(i as int + 1),
                        member@,
                    ));
                }
                i = i + 1;
            }
            assert(all.take(i as int) =~= all);
        },
    }
}

fn find_unions(nodes: &Vec<GraphNodeData>, member: &str) -> (r: Vec<String>)
    ensures
        r.deep_view() == unions_listing(nodes.deep_view(), member@),
{
    let ghost all = nodes.deep_view();
    let mut out: Vec<String> = Vec::new();
    let mut i: usize = 0;
    assert(all.take(0) =~= Seq::<NodeModel>::empty());
    assert(out.deep_view() =~= Seq::<Seq<char>>::empty());
    while i < nodes.len()
        invariant
            i <= nodes@.len(),
            all == nodes.deep_view(),
            out.deep_view() == unions_listing(all.take(i as int), member@),
        decreases nodes@.len() - i,
    {
        assert(all.take(i as int + 1).drop_last() =~= all.take(i as int));
        assert(all[i as int] == nodes@[i as int].deep_view());
        if nodes[i].kind == NodeKind::Union {
            push_listings(&nodes[i], member, &mut out);
        }
        i = i + 1;
    }
    assert(all.take(i as int) =~= all);
    out
}

/// Lists on every object the unions that hold it, sorted. Computed over the kept nodes, so a union
/// that was filtered out never shows up.
pub fn index_union_membership(nodes: &mut Vec<GraphNodeData>)
    ensures
        final(nodes).deep_view() == with_membership(old(nodes).deep_view()),
{
    let ghost all = nodes.deep_view();
    let ghost want = with_membership(all);
    let mut found: Vec<Vec<String>> = Vec::new();
    let mut i: usize = 0;
    while i < nodes.len()
        invariant
            i <= nodes@.len(),
            all == nodes.deep_view(),
            found@.len() == i,
            forall|k: int|
                0 <= k < i ==> (#[trigger] found@[k]).deep_view() == unions_listing(all, all[k].name),
        decreases nodes@.len() - i,
    {
        assert(all[i as int] == nodes@[i as int].deep_view());
        found.push(find_unions(nodes, nodes[i].name.as_str()));
        i = i + 1;
    }
    let mut j: usize = 0;
    while j < nodes.len()
        invariant
            j <= nodes@.len(),
            nodes@.len() == all.len(),
            want == with_membership(all),
            found@.len() == all.len(),
            forall|k: int|
                0 <= k < found@.len() ==> (#[trigger] found@[k]).deep_view() == unions_listing(
                    all,
                    all[k].name,
                ),
            forall|k: int| 0 <= k < j ==> (#[trigger] nodes@[k]).deep_view() == want[k],
            forall|k: int| j <= k < nodes@.len() ==> (#[trigger] nodes@[k]).deep_view() == all[k],
        decreases nodes@.len() - j,
    {
        assert(nodes@[j as int].deep_view() == all[j as int]);
        if nodes[j].kind == NodeKind::Object && found[j].len() > 0 {
            let unions = sort_texts(&found[j]);
            nodes[j].member_of_unions = Some(unions);
        }
        assert(nodes@[j as int].deep_view() == want[j as int]);
        j = j + 1;
    }
    assert(nodes.deep_view() =~= want);
}

// ── root types ─────────────────────────────────────────────────────────────

/// The roots that `schema` blocks list, later ones winning.
pub open spec fn listed_roots(doc: Seq<DefinitionModel>) -> RootModel
    decreases doc.len(),
{
    if doc.len() == 0 {
        no_roots()
    } else {
        let before = listed_roots(doc.drop_last());
        match doc.last() {
            DefinitionModel::Schema { query, mutation, subscription } => RootModel {
                query: if query is Some { query } else { before.query },
                mutation: if mutation is Some { mutation } else { before.mutation },
                subscription: if subscription is Some { subscription } else { before.subscription },
            },
            _ => before,
        }
    }
}

/// `name` as a root, if a node has that name.
pub open spec fn default_root(nodes: Seq<NodeModel>, name: Seq<char>) -> Option<Seq<char>> {
    if node_names(nodes).contains(name) { Some(name) } else { None }
}

/// The root types: those that `schema` blocks list, or with none listed the default names that
/// some node has.
pub open spec fn roots_of(doc: Seq<DefinitionModel>, nodes: Seq<NodeModel>) -> RootModel {
    let listed = listed_roots(doc);
    if listed != no_roots() {
        listed
    } else {
        RootModel {
            query: default_root(nodes, "Query"@),
            mutation: default_root(nodes, "Mutation"@),
            subscription: default_root(nodes, "Subscription"@),
        }
    }
}

fn root_if_named(nodes: &Vec<GraphNodeData>, name: &str) -> (r: Option<String>)
    ensures
        r.deep_view() == default_root(nodes.deep_view(), name@),
{
    let ghost names = node_names(nodes.deep_view());
    let mut i: usize = 0;
    while i < nodes.len()
        invariant
            i <= nodes@.len(),
            names == node_names(nodes.deep_view()),
            forall|j: int| 0 <= j < i ==> #[trigger] names[j] != name@,
        decreases nodes@.len() - i,
    {
        assert(names[i as int] == nodes@[i as int].name@);
        if same(nodes[i].name.as_str(), name) {
            assert(names.contains(name@));
            return Some(name.to_owned());
        }
        i = i + 1;
    }
    None
}

/// Determines the root operation type names. An explicit `schema { … }` definition (or `extend
/// schema { … }`) wins outright: only the operations it lists become roots. Without one, `Query`,
/// `Mutation` and `Subscription` are roots if a type of that exact name exists.
pub fn resolve_root_types(doc: &Vec<Definition>, nodes: &Vec<GraphNodeData>) -> (map: RootTypeMap)
    ensures
        map.deep_view() == roots_of(doc.deep_view(), nodes.deep_view()),
{
    let ghost all = doc.deep_view();
    let mut map = RootTypeMap { query: None, mutation: None, subscription: None };
    let mut i: usize = 0;
    assert(all.take(0) =~= Seq::<DefinitionModel>::empty());
    while i < doc.len()
        invariant
            i <= doc@.len(),
            all == doc.deep_view(),
            map.deep_view() == listed_roots(all.take(i as int)),
        decreases doc@.len() - i,
    {
        assert(all.take(i as int + 1).drop_last() =~= all.take(i as int));
        assert(all[i as int] == doc@[i as int].deep_view());
        if let Definition::Schema { query, mutation, subscription } = &doc[i] {
            if let Some(q) = query {
                map.query = Some(q.clone());
            }
            if let Some(m) = mutation {
                map.mutation = Some(m.clone());
            }
            if let Some(s) = subscription {
                map.subscription = Some(s.clone());
            }
        }
        i = i + 1;
    }
    assert(all.take(i as int) =~= all);
    if map.query.is_none() && map.mutation.is_none() && map.subscription.is_none() {
        map.query = root_if_named(nodes, "Query");
        map.mutation = root_if_named(nodes, "Mutation");
        map.subscription = root_if_named(nodes, "Subscription");
    }
    map
}

} // verus!
