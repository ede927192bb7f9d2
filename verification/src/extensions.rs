//! Folding `extend …` blocks into the nodes they target.
//!
//! Anything that cannot be applied, such as extending a type that does not exist or one of another
//! kind, is reported as a warning and skipped, so a half-written overlay still renders the parts
//! that do resolve.

use vstd::prelude::*;

use crate::document::{Definition, DefinitionModel, KindDecl, KindModel, TypeDecl, TypeDeclModel};
use crate::lists::{
    copy_names, has_name, last_place, lemma_last_place, lemma_last_place_is,
};
use crate::sdl::{
    build_enum_values, build_fields, build_input_fields, fields_of, input_fields_of, kind_of,
    kind_of_model, values_of,
};
use crate::text::{decimal, decimal_string, same};
use crate::types::{
    EnumValue, FieldModel, GraphField, GraphNodeData, NodeKind, NodeModel, ValueModel,
};

verus! {

/// The names of nodes.
pub open spec fn node_names(nodes: Seq<NodeModel>) -> Seq<Seq<char>> {
    nodes.map_values(|n: NodeModel| n.name)
}

/// The names of fields.
pub open spec fn field_names(fields: Seq<FieldModel>) -> Seq<Seq<char>> {
    fields.map_values(|f: FieldModel| f.name)
}

/// The names of enum values.
pub open spec fn value_names(values: Seq<ValueModel>) -> Seq<Seq<char>> {
    values.map_values(|v: ValueModel| v.name)
}

/// A position as warnings give it: ` at line:column`.
pub open spec fn position_text(line: usize, column: usize) -> Seq<char> {
    " at "@ + decimal(line as nat) + ":"@ + decimal(column as nat)
}

/// Fields grown by new ones: a new name goes to the end, a known one replaces the last row of that
/// name where `override_duplicates`, and is reported (by its name) elsewhere.
pub open spec fn merge_fields(
    have: Seq<FieldModel>,
    new: Seq<FieldModel>,
    override_duplicates: bool,
) -> (Seq<FieldModel>, Seq<Seq<char>>)
    decreases new.len(),
{
    if new.len() == 0 {
        (have, Seq::empty())
    } else {
        let (rows, repeated) = merge_fields(have, new.drop_last(), override_duplicates);
        let f = new.last();
        let i = last_place(field_names(rows), f.name);
        if i < 0 {
            (rows.push(f), repeated)
        } else if override_duplicates {
            (rows.update(i, f), repeated)
        } else {
            (rows, repeated.push(f.name))
        }
    }
}

/// Enum values grown by new ones, as [`merge_fields`] grows fields.
pub open spec fn merge_values(
    have: Seq<ValueModel>,
    new: Seq<ValueModel>,
    override_duplicates: bool,
) -> (Seq<ValueModel>, Seq<Seq<char>>)
    decreases new.len(),
{
    if new.len() == 0 {
        (have, Seq::empty())
    } else {
        let (rows, repeated) = merge_values(have, new.drop_last(), override_duplicates);
        let v = new.last();
        let i = last_place(value_names(rows), v.name);
        if i < 0 {
            (rows.push(v), repeated)
        } else if override_duplicates {
            (rows.update(i, v), repeated)
        } else {
            (rows, repeated.push(v.name))
        }
    }
}

/// Names grown by those of `new` that are not there yet.
pub open spec fn add_members(have: Seq<Seq<char>>, new: Seq<Seq<char>>) -> Seq<Seq<char>>
    decreases new.len(),
{
    if new.len() == 0 {
        have
    } else {
        let rest = add_members(have, new.drop_last());
        if rest.contains(new.last()) { rest } else { rest.push(new.last()) }
    }
}

/// Those of `new` that `have` does not hold.
pub open spec fn unknown_to(have: Seq<Seq<char>>, new: Seq<Seq<char>>) -> Seq<Seq<char>>
    decreases new.len(),
{
    if new.len() == 0 {
        Seq::empty()
    } else {
        let rest = unknown_to(have, new.drop_last());
        if have.contains(new.last()) { rest } else { rest.push(new.last()) }
    }
}

/// The warning about a member that an extension repeats; `what` is `field` or `value`.
pub open spec fn repeated_text(
    what: Seq<char>,
    name: Seq<char>,
    member: Seq<char>,
    at: Seq<char>,
) -> Seq<char> {
    "Duplicate "@ + what + " \""@ + name + "."@ + member + "\" in extension"@ + at
}

/// The warnings about repeated members, in order.
pub open spec fn repeated_texts(
    what: Seq<char>,
    name: Seq<char>,
    members: Seq<Seq<char>>,
    at: Seq<char>,
) -> Seq<Seq<char>> {
    members.map_values(|m: Seq<char>| repeated_text(what, name, m, at))
}

/// A slot's list, or the empty one.
pub open spec fn or_empty<A>(slot: Option<Seq<A>>) -> Seq<A> {
    match slot {
        Some(s) => s,
        None => Seq::empty(),
    }
}

/// A node grown by fields and interfaces, and the warnings this raises.
pub open spec fn with_fields(
    n: NodeModel,
    fields: Seq<FieldModel>,
    interfaces: Seq<Seq<char>>,
    at: Seq<char>,
    override_duplicates: bool,
) -> (NodeModel, Seq<Seq<char>>) {
    let (rows, repeated) = merge_fields(or_empty(n.fields), fields, override_duplicates);
    let grown = if interfaces.len() == 0 {
        n.interfaces
    } else {
        Some(or_empty(n.interfaces) + unknown_to(or_empty(n.interfaces), interfaces))
    };
    (
        NodeModel { fields: Some(rows), interfaces: grown, ..n },
        repeated_texts("field"@, n.name, repeated, at),
    )
}

/// A node grown by an extension of its own kind, and the warnings this raises.
pub open spec fn extended_node(
    n: NodeModel,
    t: TypeDeclModel,
    override_duplicates: bool,
) -> (NodeModel, Seq<Seq<char>>) {
    let at = position_text(t.line, t.column);
    match t.kind {
        KindModel::Enum { values } => {
            let (rows, repeated) = merge_values(
                or_empty(n.values),
                values_of(values),
                override_duplicates,
            );
            (
                NodeModel { values: Some(rows), ..n },
                repeated_texts("value"@, n.name, repeated, at),
            )
        },
        KindModel::Union { members } => (
            NodeModel { members: Some(add_members(or_empty(n.members), members)), ..n },
            Seq::empty(),
        ),
        KindModel::Scalar => (n, Seq::empty()),
        KindModel::Object { implements, fields } => with_fields(
            n,
            fields_of(fields),
            implements,
            at,
            override_duplicates,
        ),
        KindModel::Interface { implements, fields } => with_fields(
            n,
            fields_of(fields),
            implements,
            at,
            override_duplicates,
        ),
        KindModel::Input { fields } => with_fields(
            n,
            input_fields_of(fields),
            Seq::empty(),
            at,
            override_duplicates,
        ),
    }
}

/// The warning about an extension of a type that is not there.
pub open spec fn unknown_text(t: TypeDeclModel) -> Seq<char> {
    "Cannot extend unknown "@ + kind_of_model(t.kind).keyword() + " \""@ + t.name + "\""@
        + position_text(t.line, t.column)
}

/// The warning about an extension of another kind than its target.
pub open spec fn mismatch_text(t: TypeDeclModel, declared: NodeKind) -> Seq<char> {
    "Cannot extend \""@ + t.name + "\" as "@ + kind_of_model(t.kind).keyword() + position_text(
        t.line,
        t.column,
    ) + " — it is declared as "@ + declared.keyword()
}

/// Nodes and warnings after one more extension; the last node of a name is the target.
pub open spec fn extend_step(
    nodes: Seq<NodeModel>,
    warnings: Seq<Seq<char>>,
    t: TypeDeclModel,
    override_duplicates: bool,
) -> (Seq<NodeModel>, Seq<Seq<char>>) {
    let i = last_place(node_names(nodes), t.name);
    if i < 0 {
        (nodes, warnings.push(unknown_text(t)))
    } else if nodes[i].kind != kind_of_model(t.kind) {
        (nodes, warnings.push(mismatch_text(t, nodes[i].kind)))
    } else {
        let (n, raised) = extended_node(nodes[i], t, override_duplicates);
        (nodes.update(i, n), warnings + raised)
    }
}

/// Nodes after every extension of the document is folded in, and the warnings raised.
pub open spec fn extended(
    doc: Seq<DefinitionModel>,
    nodes: Seq<NodeModel>,
    override_duplicates: bool,
) -> (Seq<NodeModel>, Seq<Seq<char>>)
    decreases doc.len(),
{
    if doc.len() == 0 {
        (nodes, Seq::empty())
    } else {
        let (before, warnings) = extended(doc.drop_last(), nodes, override_duplicates);
        match doc.last() {
            DefinitionModel::Type(t) => if t.extend {
                extend_step(before, warnings, t, override_duplicates)
            } else {
                (before, warnings)
            },
            _ => (before, warnings),
        }
    }
}

fn position(line: usize, column: usize) -> (r: String)
    ensures
        r@ == position_text(line, column),
{
    let mut s = " at ".to_owned();
    s.append(decimal_string(line).as_str());
    s.append(":");
    s.append(decimal_string(column).as_str());
    s
}

fn find_field(rows: &Vec<GraphField>, name: &str) -> (r: Option<usize>)
    ensures
        match r {
            Some(i) => i < rows@.len() && i == last_place(field_names(rows.deep_view()), name@),
            None => last_place(field_names(rows.deep_view()), name@) == -1,
        },
{
    let ghost names = field_names(rows.deep_view());
    let mut i: usize = rows.len();
    while i > 0
        invariant
            i <= rows@.len(),
            names == field_names(rows.deep_view()),
            forall|j: int| i <= j < rows@.len() ==> #[trigger] names[j] != name@,
        decreases i,
    {
        i = i - 1;
        assert(names[i as int] == rows@[i as int].name@);
        if same(rows[i].name.as_str(), name) {
            proof {
                lemma_last_place_is(names, name@, i as int);
            }
            return Some(i);
        }
    }
    proof {
        lemma_last_place_is(names, name@, -1);
    }
    None
}

fn find_value(rows: &Vec<EnumValue>, name: &str) -> (r: Option<usize>)
    ensures
        match r {
            Some(i) => i < rows@.len() && i == last_place(value_names(rows.deep_view()), name@),
            None => last_place(value_names(rows.deep_view()), name@) == -1,
        },
{
    let ghost names = value_names(rows.deep_view());
    let mut i: usize = rows.len();
    while i > 0
        invariant
            i <= rows@.len(),
            names == value_names(rows.deep_view()),
            forall|j: int| i <= j < rows@.len() ==> #[trigger] names[j] != name@,
        decreases i,
    {
        i = i - 1;
        assert(names[i as int] == rows@[i as int].name@);
        if same(rows[i].name.as_str(), name) {
            proof {
                lemma_last_place_is(names, name@, i as int);
            }
            return Some(i);
        }
    }
    proof {
        lemma_last_place_is(names, name@, -1);
    }
    None
}

fn find_node(nodes: &Vec<GraphNodeData>, name: &str) -> (r: Option<usize>)
    ensures
        match r {
            Some(i) => i < nodes@.len() && i == last_place(node_names(nodes.deep_view()), name@),
            None => last_place(node_names(nodes.deep_view()), name@) == -1,
        },
{
    let ghost names = node_names(nodes.deep_view());
    let mut i: usize = nodes.len();
    while i > 0
        invariant
            i <= nodes@.len(),
            names == node_names(nodes.deep_view()),
            forall|j: int| i <= j < nodes@.len() ==> #[trigger] names[j] != name@,
        decreases i,
    {
        i = i - 1;
        assert(names[i as int] == nodes@[i as int].name@);
        if same(nodes[i].name.as_str(), name) {
            proof {
                lemma_last_place_is(names, name@, i as int);
            }
            return Some(i);
        }
    }
    proof {
        lemma_last_place_is(names, name@, -1);
    }
    None
}

fn grow_fields(
    have: Vec<GraphField>,
    new: Vec<GraphField>,
    override_duplicates: bool,
) -> (r: (Vec<GraphField>, Vec<String>))
    ensures
        (r.0.deep_view(), r.1.deep_view()) == merge_fields(
            have.deep_view(),
            new.deep_view(),
            override_duplicates,
        ),
{
    let ghost base = have.deep_view();
    let ghost all = new.deep_view();
    let mut rows = have;
    let mut repeated: Vec<String> = Vec::new();
    assert(all.take(0) =~= Seq::<FieldModel>::empty());
    assert(repeated.deep_view() =~= Seq::<Seq<char>>::empty());
    for f in it: new
        invariant
            it.seq() == new@,
            all == new.deep_view(),
            (rows.deep_view(), repeated.deep_view()) == merge_fields(
                base,
                all.take(it.index() as int),
                override_duplicates,
            ),
    {
        let ghost i = it.index() as int;
        proof {
            assert(all[i] == f.deep_view());
            assert(all.take(i + 1).drop_last() =~= all.take(i));
            lemma_last_place(field_names(rows.deep_view()), f.name@);
        }
        let ghost before = rows.deep_view();
        let ghost before_repeated = repeated.deep_view();
        match find_field(&rows, f.name.as_str()) {
            None => {
                rows.push(f);
                assert(rows.deep_view() =~= before.push(f.deep_view()));
            },
            Some(k) => {
                if override_duplicates {
                    rows.set(k, f);
                    assert(rows.deep_view() =~= before.update(k as int, f.deep_view()));
                } else {
                    repeated.push(f.name);
                    assert(repeated.deep_view() =~= before_repeated.push(f.name@));
                }
            },
        }
    }
    assert(all.take(all.len() as int) =~= all);
    (rows, repeated)
}

fn grow_values(
    have: Vec<EnumValue>,
    new: Vec<EnumValue>,
    override_duplicates: bool,
) -> (r: (Vec<EnumValue>, Vec<String>))
    ensures
        (r.0.deep_view(), r.1.deep_view()) == merge_values(
            have.deep_view(),
            new.deep_view(),
            override_duplicates,
        ),
{
    let ghost base = have.deep_view();
    let ghost all = new.deep_view();
    let mut rows = have;
    let mut repeated: Vec<String> = Vec::new();
    assert(all.take(0) =~= Seq::<ValueModel>::empty());
    assert(repeated.deep_view() =~= Seq::<Seq<char>>::empty());
    for v in it: new
        invariant
            it.seq() == new@,
            all == new.deep_view(),
            (rows.deep_view(), repeated.deep_view()) == merge_values(
                base,
                all.take(it.index() as int),
                override_duplicates,
            ),
    {
        let ghost i = it.index() as int;
        proof {
            assert(all[i] == v.deep_view());
            assert(all.take(i + 1).drop_last() =~= all.take(i));
            lemma_last_place(value_names(rows.deep_view()), v.name@);
        }
        let ghost before = rows.deep_view();
        let ghost before_repeated = repeated.deep_view();
        match find_value(&rows, v.name.as_str()) {
            None => {
                rows.push(v);
                assert(rows.deep_view() =~= before.push(v.deep_view()));
            },
            Some(k) => {
                if override_duplicates {
                    rows.set(k, v);
                    assert(rows.deep_view() =~= before.update(k as int, v.deep_view()));
                } else {
                    repeated.push(v.name);
                    assert(repeated.deep_view() =~= before_repeated.push(v.name@));
                }
            },
        }
    }
    assert(all.take(all.len() as int) =~= all);
    (rows, repeated)
}

fn grow_members(have: Vec<String>, new: &Vec<String>) -> (r: Vec<String>)
    ensures
        r.deep_view() == add_members(have.deep_view(), new.deep_view()),
{
    let ghost base = have.deep_view();
    let ghost all = new.deep_view();
    let mut out = have;
    let mut i: usize = 0;
    assert(all.take(0) =~= Seq::<Seq<char>>::empty());
    while i < new.len()
        invariant
            i <= new@.len(),
            all == new.deep_view(),
            out.deep_view() == add_members(base, all.take(i as int)),
        decreases new@.len() - i,
    {
        assert(all[i as int] == new@[i as int]@);
        assert(all.take(i as int + 1).drop_last() =~= all.take(i as int));
        if !has_name(&out, new[i].as_str()) {
            let ghost before = out.deep_view();
            out.push(new[i].clone());
            assert(out.deep_view() =~= before.push(all[i as int]));
        }
        i = i + 1;
    }
    assert(all.take(i as int) =~= all);
    out
}

fn grow_interfaces(have: Vec<String>, new: &Vec<String>) -> (r: Vec<String>)
    ensures
        r.deep_view() == have.deep_view() + unknown_to(have.deep_view(), new.deep_view()),
{
    let ghost base = have.deep_view();
    let ghost all = new.deep_view();
    let known = copy_names(&have);
    let mut out = have;
    let mut i: usize = 0;
    assert(all.take(0) =~= Seq::<Seq<char>>::empty());
    assert(base + Seq::<Seq<char>>::empty() =~= base);
    while i < new.len()
        invariant
            i <= new@.len(),
            all == new.deep_view(),
            known.deep_view() == base,
            out.deep_view() == base + unknown_to(base, all.take(i as int)),
        decreases new@.len() - i,
    {
        assert(all[i as int] == new@[i as int]@);
        assert(all.take(i as int + 1).drop_last() =~= all.take(i as int));
        if !has_name(&known, new[i].as_str()) {
            let ghost before = out.deep_view();
            out.push(new[i].clone());
            assert(out.deep_view() =~= before.push(all[i as int]));
            assert(out.deep_view() =~= base + unknown_to(base, all.take(i as int + 1)));
        }
        i = i + 1;
    }
    assert(all.take(i as int) =~= all);
    out
}

fn repeated_warnings(
    what: &str,
    name: &str,
    members: &Vec<String>,
    at: &str,
    warnings: &mut Vec<String>,
)
    ensures
        final(warnings).deep_view() == old(warnings).deep_view() + repeated_texts(
            what@,
            name@,
            members.deep_view(),
            at@,
        ),
{
    let ghost base = warnings.deep_view();
    let ghost texts = repeated_texts(what@, name@, members.deep_view(), at@);
    let mut i: usize = 0;
    assert(base + texts.take(0) =~= base);
    while i < members.len()
        invariant
            i <= members@.len(),
            texts == repeated_texts(what@, name@, members.deep_view(), at@),
            warnings.deep_view() == base + texts.take(i as int),
        decreases members@.len() - i,
    {
        let mut s = "Duplicate ".to_owned();
        s.append(what);
        s.append(" \"");
        s.append(name);
        s.append(".");
        s.append(members[i].as_str());
        s.append("\" in extension");
        s.append(at);
        let ghost before = warnings.deep_view();
        assert(texts[i as int] == s@);
        warnings.push(s);
        assert(warnings.deep_view() =~= before.push(s@));
        assert(base + texts.take(i as int + 1) =~= (base + texts.take(i as int)).push(texts[i as int]));
        i = i + 1;
    }
    assert(texts.take(i as int) =~= texts);
}

fn or_none<T: DeepView>(slot: Option<Vec<T>>) -> (r: Vec<T>)
    ensures
        r.deep_view() == or_empty(slot.deep_view()),
{
    match slot {
        Some(v) => v,
        None => {
            let r: Vec<T> = Vec::new();
            assert(r.deep_view() =~= Seq::<T::V>::empty());
            r
        },
    }
}

fn grow_node_fields(
    node: GraphNodeData,
    fields: Vec<GraphField>,
    interfaces: &Vec<String>,
    at: &str,
    override_duplicates: bool,
    warnings: &mut Vec<String>,
) -> (r: GraphNodeData)
    ensures
        ({
            let (n, raised) = with_fields(
                node.deep_view(),
                fields.deep_view(),
                interfaces.deep_view(),
                at@,
                override_duplicates,
            );
            &&& r.deep_view() == n
            &&& final(warnings).deep_view() == old(warnings).deep_view() + raised
        }),
{
    let mut node = node;
    let (rows, repeated) = grow_fields(or_none(node.fields), fields, override_duplicates);
    node.fields = Some(rows);
    repeated_warnings("field", node.name.as_str(), &repeated, at, warnings);
    if interfaces.len() > 0 {
        node.interfaces = Some(grow_interfaces(or_none(node.interfaces), interfaces));
    }
    node
}

/// Grows a node by an extension of its own kind.
fn extend_node(
    node: GraphNodeData,
    t: &TypeDecl,
    override_duplicates: bool,
    warnings: &mut Vec<String>,
) -> (r: GraphNodeData)
    ensures
        ({
            let (n, raised) = extended_node(node.deep_view(), t.deep_view(), override_duplicates);
            &&& r.deep_view() == n
            &&& final(warnings).deep_view() == old(warnings).deep_view() + raised
        }),
{
    let at = position(t.line, t.column);
    let ghost base = warnings.deep_view();
    match &t.kind {
        KindDecl::Enum { values } => {
            let mut node = node;
            let (rows, repeated) = grow_values(
                or_none(node.values),
                build_enum_values(values),
                override_duplicates,
            );
            node.values = Some(rows);
            repeated_warnings("value", node.name.as_str(), &repeated, at.as_str(), warnings);
            node
        },
        KindDecl::Union { members } => {
            let mut node = node;
            node.members = Some(grow_members(or_none(node.members), members));
            assert(base + Seq::<Seq<char>>::empty() =~= base);
            node
        },
        KindDecl::Scalar => {
            assert(base + Seq::<Seq<char>>::empty() =~= base);
            node
        },
        KindDecl::Object { implements, fields } => grow_node_fields(
            node,
            build_fields(fields),
            implements,
            at.as_str(),
            override_duplicates,
            warnings,
        ),
        KindDecl::Interface { implements, fields } => grow_node_fields(
            node,
            build_fields(fields),
            implements,
            at.as_str(),
            override_duplicates,
            warnings,
        ),
        KindDecl::Input { fields } => {
            let none: Vec<String> = Vec::new();
            assert(none.deep_view() =~= Seq::<Seq<char>>::empty());
            grow_node_fields(
                node,
                build_input_fields(fields),
                &none,
                at.as_str(),
                override_duplicates,
                warnings,
            )
        },
    }
}

fn unknown_warning(t: &TypeDecl) -> (r: String)
    ensures
        r@ == unknown_text(t.deep_view()),
{
    let mut s = "Cannot extend unknown ".to_owned();
    s.append(kind_of(&t.kind).sdl_keyword());
    s.append(" \"");
    s.append(t.name.as_str());
    s.append("\"");
    s.append(position(t.line, t.column).as_str());
    s
}

fn mismatch_warning(t: &TypeDecl, declared: NodeKind) -> (r: String)
    ensures
        r@ == mismatch_text(t.deep_view(), declared),
{
    let mut s = "Cannot extend \"".to_owned();
    s.append(t.name.as_str());
    s.append("\" as ");
    s.append(kind_of(&t.kind).sdl_keyword());
    s.append(position(t.line, t.column).as_str());
    s.append(" — it is declared as ");
    s.append(declared.sdl_keyword());
    s
}

fn extend_one(
    nodes: &mut Vec<GraphNodeData>,
    warnings: &mut Vec<String>,
    t: &TypeDecl,
    override_duplicates: bool,
)
    ensures
        (final(nodes).deep_view(), final(warnings).deep_view()) == extend_step(
            old(nodes).deep_view(),
            old(warnings).deep_view(),
            t.deep_view(),
            override_duplicates,
        ),
{
    let ghost nodes0 = nodes.deep_view();
    let ghost warnings0 = warnings.deep_view();
    match find_node(nodes, t.name.as_str()) {
        None => {
            warnings.push(unknown_warning(t));
            assert(warnings.deep_view() =~= warnings0.push(unknown_text(t.deep_view())));
        },
        Some(i) => {
            let kind = nodes[i].kind;
            assert(nodes0[i as int].kind == kind);
            if kind != kind_of(&t.kind) {
                warnings.push(mismatch_warning(t, kind));
                assert(warnings.deep_view() =~= warnings0.push(mismatch_text(t.deep_view(), kind)));
            } else {
                let mut node = GraphNodeData::new("", NodeKind::Scalar);
                std::mem::swap(&mut node, &mut nodes[i]);
                assert(node.deep_view() == nodes0[i as int]);
                let grown = extend_node(node, t, override_duplicates, warnings);
                nodes.set(i, grown);
                assert(nodes.deep_view() =~= nodes0.update(i as int, grown.deep_view()));
            }
        },
    }
}

/// Folds every `extend type|interface|input|enum|union|scalar` block into the node it targets and
/// returns the warnings.
///
/// With `override_duplicates`, re-declaring an existing field or enum value replaces it in place,
/// so an overridden row keeps its position.
pub fn apply_extensions(
    doc: &Vec<Definition>,
    nodes: &mut Vec<GraphNodeData>,
    override_duplicates: bool,
) -> (warnings: Vec<String>)
    ensures
        (final(nodes).deep_view(), warnings.deep_view()) == extended(
            doc.deep_view(),
            old(nodes).deep_view(),
            override_duplicates,
        ),
{
    let ghost base = nodes.deep_view();
    let ghost all = doc.deep_view();
    let mut warnings: Vec<String> = Vec::new();
    let mut i: usize = 0;
    assert(all.take(0) =~= Seq::<DefinitionModel>::empty());
    assert(warnings.deep_view() =~= Seq::<Seq<char>>::empty());
    while i < doc.len()
        invariant
            i <= doc@.len(),
            all == doc.deep_view(),
            (nodes.deep_view(), warnings.deep_view()) == extended(
                all.take(i as int),
                base,
                override_duplicates,
            ),
        decreases doc@.len() - i,
    {
        assert(all.take(i as int + 1).drop_last() =~= all.take(i as int));
        assert(all[i as int] == doc@[i as int].deep_view());
        if let Definition::Type(t) = &doc[i] {
            if t.extend {
                extend_one(nodes, &mut warnings, t, override_duplicates);
            }
        }
        i = i + 1;
    }
    assert(all.take(i as int) =~= all);
    warnings
}

} // verus!
