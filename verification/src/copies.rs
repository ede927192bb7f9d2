//! Copies that are known to be alike.

use vstd::prelude::*;

use crate::types::{
    EnumValue, GraphArg, GraphEdgeData, GraphField, GraphNodeData, ParsedGraph, RootTypeMap,
};

verus! {

/// A value that can be copied to one of the same model.
pub trait Duplicate: DeepView + Sized {
    /// A copy of the value.
    fn duplicate(&self) -> (r: Self)
        ensures
            r.deep_view() == self.deep_view(),
    ;
}

impl Duplicate for String {
    fn duplicate(&self) -> (r: Self) {
        self.clone()
    }
}

impl<T: Duplicate> Duplicate for Option<T> {
    fn duplicate(&self) -> (r: Self) {
        match self {
            Some(x) => Some(x.duplicate()),
            None => None,
        }
    }
}

impl<T: Duplicate> Duplicate for Vec<T> {
    fn duplicate(&self) -> (r: Self) {
        let mut out: Vec<T> = Vec::new();
        let mut i: usize = 0;
        while i < self.len()
            invariant
                i <= self@.len(),
                out@.len() == i,
                forall|k: int|
                    0 <= k < i ==> (#[trigger] out@[k]).deep_view() == self@[k].deep_view(),
            decreases self@.len() - i,
        {
            out.push(self[i].duplicate());
            i = i + 1;
        }
        assert(out.deep_view() =~= self.deep_view());
        out
    }
}

impl Duplicate for GraphArg {
    fn duplicate(&self) -> (r: Self) {
        GraphArg {
            name: self.name.clone(),
            type_: self.type_.clone(),
            base_type: self.base_type.clone(),
        }
    }
}

impl Duplicate for GraphField {
    fn duplicate(&self) -> (r: Self) {
        GraphField {
            name: self.name.clone(),
            type_: self.type_.clone(),
            base_type: self.base_type.clone(),
            nullable: self.nullable,
            is_relay_connection: self.is_relay_connection,
            args: self.args.duplicate(),
            description: self.description.duplicate(),
            is_deprecated: self.is_deprecated,
            deprecation_reason: self.deprecation_reason.duplicate(),
            until: self.until.duplicate(),
            is_overlay: self.is_overlay,
        }
    }
}

impl Duplicate for EnumValue {
    fn duplicate(&self) -> (r: Self) {
        EnumValue {
            name: self.name.clone(),
            description: self.description.duplicate(),
            is_deprecated: self.is_deprecated,
            deprecation_reason: self.deprecation_reason.duplicate(),
            until: self.until.duplicate(),
            is_overlay: self.is_overlay,
        }
    }
}

impl Duplicate for GraphNodeData {
    fn duplicate(&self) -> (r: Self) {
        GraphNodeData {
            id: self.id.clone(),
            name: self.name.clone(),
            kind: self.kind,
            description: self.description.duplicate(),
            fields: self.fields.duplicate(),
            values: self.values.duplicate(),
            members: self.members.duplicate(),
            interfaces: self.interfaces.duplicate(),
            member_of_unions: self.member_of_unions.duplicate(),
            is_overlay: self.is_overlay,
        }
    }
}

impl Duplicate for GraphEdgeData {
    fn duplicate(&self) -> (r: Self) {
        GraphEdgeData {
            id: self.id.clone(),
            source: self.source.clone(),
            target: self.target.clone(),
            source_field: self.source_field.duplicate(),
            source_field_index: self.source_field_index,
            label: self.label.duplicate(),
            kind: self.kind,
            nullable: self.nullable,
            bundled_labels: self.bundled_labels.duplicate(),
        }
    }
}

impl Duplicate for RootTypeMap {
    fn duplicate(&self) -> (r: Self) {
        RootTypeMap {
            query: self.query.duplicate(),
            mutation: self.mutation.duplicate(),
            subscription: self.subscription.duplicate(),
        }
    }
}

impl Duplicate for ParsedGraph {
    fn duplicate(&self) -> (r: Self) {
        ParsedGraph {
            nodes: self.nodes.duplicate(),
            edges: self.edges.duplicate(),
            error: self.error.duplicate(),
            warnings: self.warnings.duplicate(),
            root_types: self.root_types.duplicate(),
        }
    }
}

} // verus!
