//! Root operations in the sidebar.

use graviz::browse::{declares_root, first_root, root_names};
use graviz::cards::ModelOptions;
use graviz::model::{build_model, Model};
use graviz::sdl::sdl_to_graph;
use graviz::slices::{slice_graph, Mode};
use graviz::types::SdlToGraphOptions;

const THREE_ROOTS: &str = "type Query { post: Post }
     type Mutation { createPost: Post }
     type Subscription { postCreated: Post }
     type Post { id: ID! }";

fn model_of(sdl: &str, root: Option<&str>) -> Model {
    let g = sdl_to_graph(
        sdl,
        &SdlToGraphOptions { hide_relay_boilerplate: false, ..Default::default() },
    );
    assert!(g.error.is_none(), "{:?}", g.error);
    build_model(
        slice_graph(&g, Mode::Reachable, root),
        "t".into(),
        &ModelOptions::on_day("2020-01-01"),
    )
}

/// The picker must list every root the schema declares. The Reachable
/// slice only keeps one root's subgraph, so deriving the list from the
/// model's own cards showed just that one.
#[test]
fn root_names_survive_a_single_root_slice() {
    let m = model_of(THREE_ROOTS, Some("Mutation"));
    assert_eq!(m.roots.len(), 1, "the slice really does keep only one root card");
    let names: Vec<String> = root_names(&m.graph.root_types).iter().map(|n| n.to_string()).collect();
    assert_eq!(names, ["Query", "Mutation", "Subscription"]);
}

/// Picking a root re-slices and lands back in `set_model`, which must
/// keep the pick — recomputing it snapped the highlight back to Query
/// while the canvas showed the newly picked root.
#[test]
fn a_picked_root_is_still_recognized_after_reslicing() {
    let m = model_of(THREE_ROOTS, Some("Mutation"));
    assert!(declares_root(&m.graph.root_types, Some("Mutation")));
    assert!(declares_root(&m.graph.root_types, Some("Subscription")));
    assert!(!declares_root(&m.graph.root_types, Some("Post")), "not a root operation");
    assert!(!declares_root(&m.graph.root_types, None));
    assert_eq!(first_root(&m.graph.root_types).map(|s| s.to_string()), Some("Query".into()));
}

/// A schema whose roots are gone (a different file was opened) has to
/// fall back rather than keep highlighting a name that is not there.
#[test]
fn declares_root_rejects_names_from_another_schema() {
    let m = model_of("type Query { a: String }", None);
    assert!(declares_root(&m.graph.root_types, Some("Query")));
    assert!(!declares_root(&m.graph.root_types, Some("Mutation")));
}
