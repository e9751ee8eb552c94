//! Geometry and interaction engine for a node-graph editor.
//!
//! The engine sits beneath a rendering surface. It keeps what the surface
//! reports of nodes and pins, answers which pins and links are known well
//! enough to be drawn or hit, tracks what is selected, decides whether a new
//! link may be made, and prepares the graph for a layered layout.
//!
//! Everything here decides by ids. Coordinates are stored and handed back
//! but never computed with, so every type that holds one is generic over the
//! coordinate type.
//!
//! - [`state`]: the geometry cache, and what resolves in it;
//! - [`geometry`]: nodes, pins and links as far as placing them goes;
//! - [`selection`]: the selection state machine;
//! - [`graph`]: links, and questions about them that need no geometry;
//! - [`validation`]: composable rules for new links;
//! - [`links`]: the list of links of a graph;
//! - [`controller`]: cache, viewport, drag and link registry under one owner;
//! - [`layout`]: numbering a graph for a layering algorithm and back;
//! - [`model`]: the interface layer's row model, as the engine sees it.

pub mod controller;
pub mod geometry;
pub mod graph;
pub mod layout;
pub mod links;
pub mod model;
pub mod selection;
pub mod state;
pub mod validation;

pub use controller::{ControllerState, NodeEditorController};
pub use geometry::{
    hit_samples, LinkGeometry, NodeGeometry, PinGeometry, SimpleLinkGeometry, SimpleNodeGeometry,
    SimplePinGeometry, DEFAULT_HIT_SAMPLES, NO_LINK, NO_PIN,
};
pub use graph::{Color, GraphLogic, LinkModel, SimpleLink};
pub use layout::{
    collect_positions, node_edges_from_pins, node_sizes_from_cache, prepare_layout,
    sugiyama_layout, sugiyama_layout_from_cache, Direction, LayoutGraph, NodePosition,
};
pub use links::LinkManager;
pub use selection::SelectionManager;
pub use state::{GeometryCache, StoredPin};
pub use validation::{
    validate_link, BasicLinkValidator, CompositeValidator, LinkValidator, NoDuplicatesValidator,
    StandardValidator, ValidationError, ValidationResult,
};
