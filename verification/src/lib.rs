//! GraphQL schemas as graphs: reading them, overlays, slices, search, layout, and what an explorer
//! shows of them.

pub mod adjacency;
pub mod balance;
pub mod browse;
pub mod cards;
pub mod carets;
pub mod changes;
pub mod clusters;
pub mod components;
pub mod copies;
pub mod crossings;
pub mod cycles;
pub mod dates;
pub mod deadlines;
pub mod declarations;
pub mod depths;
pub mod details;
pub mod document;
pub mod drawing;
pub mod dues;
pub mod edges;
pub mod extensions;
pub mod faces;
pub mod finds;
pub mod geometry;
pub mod growth;
pub mod highlight;
pub mod kin;
pub mod labels;
pub mod landing;
pub mod lanes;
pub mod layers;
pub mod layouts;
pub mod lists;
pub mod loader;
pub mod losses;
pub mod matching;
pub mod model;
pub mod ordering;
pub mod overlay;
pub mod panels;
pub mod parts;
pub mod portrait;
pub mod provenance;
pub mod ranking;
pub mod reachable;
pub mod recents;
pub mod redeclarations;
pub mod relay;
pub mod removals;
pub mod routes;
pub mod scan;
pub mod scene;
pub mod sdl;
pub mod search;
pub mod sidebar;
pub mod simplex;
pub mod slices;
pub mod sorting;
pub mod sweeps;
pub mod text;
pub mod textedit;
pub mod theme;
pub mod tips;
pub mod trail;
pub mod types;
pub mod typing;
pub mod unions;
pub mod until;
pub mod update;
pub mod views;
pub mod wires;
pub mod words;
pub mod wrappers;
