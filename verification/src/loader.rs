//! From schema and overlay text to the marked graph that is shown.

use vstd::prelude::*;

use crate::overlay::{prepare_overlay, prepared};
use crate::provenance::{diff_of, mark_overlay, marked_graph, DiffModel, OverlayDiff};
use crate::sdl::{graph_of, sdl_to_graph};
use crate::text::{trim, trimmed};
use crate::types::{GraphModel, OptionsModel, ParsedGraph, SchemaRemoval, SdlToGraphOptions};

verus! {

/// A schema that has been read, with its overlay applied.
#[derive(Debug, PartialEq, Eq)]
pub struct LoadedSchema {
    pub graph: ParsedGraph,
    pub name: String,
    /// Present when an overlay was applied.
    pub diff: Option<OverlayDiff>,
    /// Problems in the overlay's own shorthand.
    pub overlay_warnings: Vec<String>,
}

/// Which document could not be read, and what its parser says.
#[derive(Debug, PartialEq, Eq)]
pub enum LoadError {
    Schema(String),
    Overlay(String),
}

/// Model of the outcome of loading.
pub enum Loaded {
    Shown {
        graph: GraphModel,
        diff: Option<DiffModel>,
        overlay_warnings: Seq<Seq<char>>,
    },
    BadSchema(Seq<char>),
    BadOverlay(Seq<char>),
}

impl LoadError {
    /// The message of the error.
    pub open spec fn text(self) -> Seq<char> {
        match self {
            LoadError::Schema(e) => "schema parse error: "@ + e@,
            LoadError::Overlay(e) => "overlay parse error: "@ + e@,
        }
    }

    /// The message to show.
    pub fn message(&self) -> (r: String)
        ensures
            r@ == self.text(),
    {
        match self {
            LoadError::Schema(e) => {
                let mut r = "schema parse error: ".to_owned();
                r.append(e.as_str());
                r
            },
            LoadError::Overlay(e) => {
                let mut r = "overlay parse error: ".to_owned();
                r.append(e.as_str());
                r
            },
        }
    }
}

/// The graph of a schema without an overlay.
pub open spec fn base_graph(sdl: Seq<char>, hide_relay: bool) -> GraphModel {
    graph_of(
        sdl,
        OptionsModel {
            hide_relay_boilerplate: hide_relay,
            remove: Seq::empty(),
            override_duplicates: false,
        },
    )
}

/// The graph of a schema merged with an overlay.
pub open spec fn merged_graph(sdl: Seq<char>, overlay: Seq<char>, hide_relay: bool) -> GraphModel {
    graph_of(
        prepared(sdl, overlay).sdl,
        OptionsModel {
            hide_relay_boilerplate: hide_relay,
            remove: prepared(sdl, overlay).removals,
            override_duplicates: true,
        },
    )
}

/// There is an overlay to apply: one that is not blank.
pub open spec fn has_overlay(overlay: Option<Seq<char>>) -> bool {
    overlay matches Some(o) && trim(o).len() > 0
}

/// What comes of a schema and an overlay.
pub open spec fn outcome(sdl: Seq<char>, overlay: Option<Seq<char>>, hide_relay: bool) -> Loaded {
    let base = base_graph(sdl, hide_relay);
    if let Some(e) = base.error {
        Loaded::BadSchema(e)
    } else if !has_overlay(overlay) {
        Loaded::Shown { graph: base, diff: None, overlay_warnings: Seq::empty() }
    } else {
        let merged = merged_graph(sdl, overlay.unwrap(), hide_relay);
        if let Some(e) = merged.error {
            Loaded::BadOverlay(e)
        } else {
            Loaded::Shown {
                graph: marked_graph(base, merged),
                diff: Some(diff_of(base, merged)),
                overlay_warnings: prepared(sdl, overlay.unwrap()).warnings,
            }
        }
    }
}

/// The result is the outcome.
pub open spec fn is_outcome(r: Result<LoadedSchema, LoadError>, o: Loaded) -> bool {
    match (r, o) {
        (Ok(s), Loaded::Shown { graph, diff, overlay_warnings }) => {
            &&& s.graph.deep_view() == graph
            &&& s.diff.deep_view() == diff
            &&& s.overlay_warnings.deep_view() == overlay_warnings
        },
        (Err(LoadError::Schema(e)), Loaded::BadSchema(t)) => e@ == t,
        (Err(LoadError::Overlay(e)), Loaded::BadOverlay(t)) => e@ == t,
        _ => false,
    }
}

/// A blank overlay is the same as none.
pub proof fn a_blank_overlay_changes_nothing(sdl: Seq<char>, overlay: Seq<char>, hide_relay: bool)
    requires
        trim(overlay).len() == 0,
    ensures
        outcome(sdl, Some(overlay), hide_relay) == outcome(sdl, None, hide_relay),
{
}

/// Reads a schema, and the overlay over it where there is one that is not blank. A schema or an
/// overlay that does not parse is an error.
pub fn load_sdl(sdl: &str, name: String, overlay_sdl: Option<&str>, hide_relay: bool) -> (r: Result<
    LoadedSchema,
    LoadError,
>)
    ensures
        is_outcome(r, outcome(sdl@, overlay_sdl.deep_view(), hide_relay)),
        r matches Ok(s) ==> s.name == name,
{
    let none: Vec<SchemaRemoval> = Vec::new();
    assert(none.deep_view() =~= Seq::empty());
    let base_options = SdlToGraphOptions {
        hide_relay_boilerplate: hide_relay,
        remove: none,
        override_duplicates: false,
    };
    let base = sdl_to_graph(sdl, &base_options);
    match base.error {
        Some(e) => {
            return Err(LoadError::Schema(e));
        },
        None => {},
    }
    let overlay: &str = match overlay_sdl {
        Some(o) => o,
        None => "",
    };
    let blank = trimmed(overlay).as_str().unicode_len() == 0;
    if overlay_sdl.is_none() || blank {
        let overlay_warnings: Vec<String> = Vec::new();
        assert(overlay_warnings.deep_view() =~= Seq::<Seq<char>>::empty());
        return Ok(LoadedSchema { graph: base, name, diff: None, overlay_warnings });
    }
    let ready = prepare_overlay(sdl, overlay);
    let options = SdlToGraphOptions {
        hide_relay_boilerplate: hide_relay,
        remove: ready.removals,
        override_duplicates: true,
    };
    let merged = sdl_to_graph(ready.sdl.as_str(), &options);
    match merged.error {
        Some(e) => {
            return Err(LoadError::Overlay(e));
        },
        None => {},
    }
    let (graph, diff) = mark_overlay(&base, merged);
    Ok(LoadedSchema { graph, name, diff: Some(diff), overlay_warnings: ready.warnings })
}

/// What a pasted schema comes to: what to show, or else what to tell.
pub open spec fn pasted(sdl: Seq<char>, hide_relay: bool) -> Result<GraphModel, Seq<char>> {
    if trim(sdl).len() == 0 {
        Err("Paste an SDL or drop a .graphql file."@)
    } else {
        let base = base_graph(sdl, hide_relay);
        match base.error {
            Some(e) => Err("schema parse error: "@ + e),
            None => if base.nodes.len() == 0 {
                Err("No types found in this SDL."@)
            } else {
                Ok(base)
            },
        }
    }
}

/// Reads a schema that was pasted into the editor. A blank one, one that does not parse and one
/// without types come back as a message.
pub fn visualize(sdl: &str, name: String, hide_relay: bool) -> (r: Result<LoadedSchema, String>)
    ensures
        match (r, pasted(sdl@, hide_relay)) {
            (Ok(s), Ok(g)) => s.graph.deep_view() == g && s.name == name && s.diff is None,
            (Err(m), Err(t)) => m@ == t,
            _ => false,
        },
{
    if trimmed(sdl).as_str().unicode_len() == 0 {
        return Err("Paste an SDL or drop a .graphql file.".to_owned());
    }
    match load_sdl(sdl, name, None, hide_relay) {
        Ok(loaded) => {
            assert(loaded.graph.deep_view().nodes.len() == loaded.graph.nodes@.len());
            if loaded.graph.nodes.len() == 0 {
                Err("No types found in this SDL.".to_owned())
            } else {
                Ok(loaded)
            }
        },
        Err(e) => Err(e.message()),
    }
}

} // verus!
