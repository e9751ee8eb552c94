//! The controller: one owner for the geometry cache, the viewport, the node
//! that is being dragged and the links that can be hit.
//!
//! The controller keeps what it is told and answers what it keeps. It owns
//! its state outright: whoever changes it holds it mutably, and a reader
//! never sees it half changed. Turning screen coordinates into world
//! coordinates is arithmetic on coordinates and is left to the caller, who
//! reads zoom and pan here.

use crate::geometry::SimpleNodeGeometry;
use crate::state::{link_resolves, resolved_link, GeometryCache, StoredPin};
use std::collections::HashMap;
use vstd::prelude::*;
use vstd::std_specs::hash::group_hash_axioms;
use vstd::std_specs::iter::IteratorSpec;

verus! {

broadcast use group_hash_axioms;

/// What a controller holds, as plain values.
pub struct ControllerState<C> {
    /// The zoom factor as it was set; it may be zero or negative.
    pub zoom: C,
    pub pan_x: C,
    pub pan_y: C,
    /// The least distance of a curve's control points from its ends.
    pub bezier_offset: C,
    pub grid_spacing: C,
    /// The node whose drag started last, `0` when none did.
    pub dragged_node_id: i32,
    /// The registered links: `(start_pin, end_pin)` by link id.
    pub links: Map<i32, (i32, i32)>,
    /// The cache's nodes.
    pub nodes: Map<i32, SimpleNodeGeometry<C>>,
    /// The cache's pins.
    pub pins: Map<i32, StoredPin<C>>,
}

/// Geometry cache, viewport, drag and link registry under one owner.
pub struct NodeEditorController<C> {
    cache: GeometryCache<SimpleNodeGeometry<C>, C>,
    zoom: C,
    pan_x: C,
    pan_y: C,
    bezier_offset: C,
    grid_spacing: C,
    dragged_node_id: i32,
    links: HashMap<i32, (i32, i32)>,
}

impl<C> View for NodeEditorController<C> {
    type V = ControllerState<C>;

    closed spec fn view(&self) -> ControllerState<C> {
        ControllerState {
            zoom: self.zoom,
            pan_x: self.pan_x,
            pan_y: self.pan_y,
            bezier_offset: self.bezier_offset,
            grid_spacing: self.grid_spacing,
            dragged_node_id: self.dragged_node_id,
            links: self.links@,
            nodes: self.cache.node_rects@,
            pins: self.cache.pin_positions@,
        }
    }
}

/// Whether `listed` holds every registered link once, as `(id, start_pin,
/// end_pin)`.
pub open spec fn lists_registered_links(
    listed: Seq<(i32, i32, i32)>,
    links: Map<i32, (i32, i32)>,
) -> bool {
    &&& forall|a: int, b: int|
        0 <= a < listed.len() && 0 <= b < listed.len() && a != b ==> (#[trigger] listed[a]).0 != (
        #[trigger] listed[b]).0
    &&& forall|k: int|
        0 <= k < listed.len() ==> links.contains_key((#[trigger] listed[k]).0) && links[listed[k].0]
            == (listed[k].1, listed[k].2)
    &&& forall|id: i32|
        links.contains_key(id) ==> exists|k: int|
            0 <= k < listed.len() && (#[trigger] listed[k]).0 == id
}

/// Whether `found` holds every registered link whose two pins resolve once,
/// with what the cache knows of its ends, and no other link.
pub open spec fn lists_hittable_links<C>(
    found: Seq<(i32, (SimpleNodeGeometry<C>, StoredPin<C>), (SimpleNodeGeometry<C>, StoredPin<C>))>,
    state: ControllerState<C>,
) -> bool {
    &&& forall|a: int, b: int|
        0 <= a < found.len() && 0 <= b < found.len() && a != b ==> (#[trigger] found[a]).0 != (
        #[trigger] found[b]).0
    &&& forall|k: int|
        0 <= k < found.len() ==> {
            let id = (#[trigger] found[k]).0;
            &&& state.links.contains_key(id)
            &&& link_resolves(state.nodes, state.pins, (id, state.links[id].0, state.links[id].1))
            &&& found[k] == resolved_link(
                state.nodes,
                state.pins,
                (id, state.links[id].0, state.links[id].1),
            )
        }
    &&& forall|id: i32|
        state.links.contains_key(id) && link_resolves(
            state.nodes,
            state.pins,
            (id, state.links[id].0, state.links[id].1),
        ) ==> exists|k: int| 0 <= k < found.len() && (#[trigger] found[k]).0 == id
}

impl<C: Copy> NodeEditorController<C> {
    /// A controller with an empty cache, no registered link and no drag, with
    /// the viewport and the settings as given.
    pub fn new(zoom: C, pan_x: C, pan_y: C, bezier_offset: C, grid_spacing: C) -> (controller: Self)
        ensures
            controller@ == (ControllerState {
                zoom,
                pan_x,
                pan_y,
                bezier_offset,
                grid_spacing,
                dragged_node_id: 0,
                links: Map::empty(),
                nodes: Map::empty(),
                pins: Map::empty(),
            }),
    {
        NodeEditorController {
            cache: GeometryCache::new(),
            zoom,
            pan_x,
            pan_y,
            bezier_offset,
            grid_spacing,
            dragged_node_id: 0,
            links: HashMap::new(),
        }
    }

    /// Sets the least distance of a curve's control points from its ends.
    pub fn set_bezier_offset(&mut self, offset: C)
        ensures
            final(self)@ == (ControllerState { bezier_offset: offset, ..old(self)@ }),
    {
        self.bezier_offset = offset;
    }

    /// Sets the grid spacing.
    pub fn set_grid_spacing(&mut self, spacing: C)
        ensures
            final(self)@ == (ControllerState { grid_spacing: spacing, ..old(self)@ }),
    {
        self.grid_spacing = spacing;
    }

    /// The zoom factor as it was set.
    pub fn zoom(&self) -> (zoom: C)
        ensures
            zoom == self@.zoom,
    {
        self.zoom
    }

    /// The pan as it was set, as `(pan_x, pan_y)`.
    pub fn pan(&self) -> (pan: (C, C))
        ensures
            pan == (self@.pan_x, self@.pan_y),
    {
        (self.pan_x, self.pan_y)
    }

    /// The least distance of a curve's control points from its ends.
    pub fn bezier_offset(&self) -> (offset: C)
        ensures
            offset == self@.bezier_offset,
    {
        self.bezier_offset
    }

    /// The grid spacing.
    pub fn grid_spacing(&self) -> (spacing: C)
        ensures
            spacing == self@.grid_spacing,
    {
        self.grid_spacing
    }

    /// The geometry cache.
    pub fn cache(&self) -> (cache: &GeometryCache<SimpleNodeGeometry<C>, C>)
        ensures
            cache.node_rects@ == self@.nodes,
            cache.pin_positions@ == self@.pins,
    {
        &self.cache
    }

    /// The node whose drag started last, `0` when none did.
    pub fn dragged_node_id(&self) -> (id: i32)
        ensures
            id == self@.dragged_node_id,
    {
        self.dragged_node_id
    }

    /// Takes a pin report: the pin goes into the cache as reported.
    pub fn handle_pin_position(&mut self, pid: i32, nid: i32, ptype: i32, x: C, y: C)
        ensures
            final(self)@ == (ControllerState {
                pins: old(self)@.pins.insert(
                    pid,
                    (StoredPin { node_id: nid, pin_type: ptype, rel_x: x, rel_y: y }),
                ),
                ..old(self)@
            }),
    {
        self.cache.handle_pin_report(pid, nid, ptype, x, y);
    }

    /// Puts a node's rectangle into the cache as given, in world
    /// coordinates.
    pub fn seed_node_world_rect(&mut self, id: i32, x: C, y: C, w: C, h: C)
        ensures
            final(self)@ == (ControllerState {
                nodes: old(self)@.nodes.insert(
                    id,
                    (SimpleNodeGeometry { id, x, y, width: w, height: h }),
                ),
                ..old(self)@
            }),
    {
        self.cache.handle_node_rect_report(id, x, y, w, h);
    }

    /// Notes that a drag of `node_id` has started.
    pub fn handle_node_drag_started(&mut self, node_id: i32)
        ensures
            final(self)@ == (ControllerState { dragged_node_id: node_id, ..old(self)@ }),
    {
        self.dragged_node_id = node_id;
    }

    /// Sets the zoom factor and leaves the pan as it is.
    pub fn set_zoom(&mut self, zoom: C)
        ensures
            final(self)@ == (ControllerState { zoom, ..old(self)@ }),
    {
        self.zoom = zoom;
    }

    /// Sets zoom and pan. The cache is in world coordinates and stays as it
    /// is.
    pub fn set_viewport(&mut self, zoom: C, pan_x: C, pan_y: C)
        ensures
            final(self)@ == (ControllerState { zoom, pan_x, pan_y, ..old(self)@ }),
    {
        self.zoom = zoom;
        self.pan_x = pan_x;
        self.pan_y = pan_y;
    }

    /// Registers a link for hit testing, replacing what was registered under
    /// `id`.
    pub fn register_link(&mut self, id: i32, start_pin: i32, end_pin: i32)
        ensures
            final(self)@ == (ControllerState {
                links: old(self)@.links.insert(id, (start_pin, end_pin)),
                ..old(self)@
            }),
    {
        self.links.insert(id, (start_pin, end_pin));
    }

    /// Takes the link `id` out of the registry, if it is there.
    pub fn unregister_link(&mut self, id: i32)
        ensures
            final(self)@ == (ControllerState { links: old(self)@.links.remove(id), ..old(self)@ }),
    {
        self.links.remove(&id);
    }

    /// Empties the link registry.
    pub fn clear_links(&mut self)
        ensures
            final(self)@ == (ControllerState { links: Map::empty(), ..old(self)@ }),
    {
        self.links.clear();
    }

    /// Empties the geometry cache: nodes and pins.
    pub fn clear_geometry(&mut self)
        ensures
            final(self)@ == (ControllerState {
                nodes: Map::empty(),
                pins: Map::empty(),
                ..old(self)@
            }),
    {
        self.cache.clear();
    }

    /// The registered links as `(id, start_pin, end_pin)`, each once. The
    /// order is not fixed.
    pub fn registered_links(&self) -> (listed: Vec<(i32, i32, i32)>)
        ensures
            lists_registered_links(listed@, self@.links),
    {
        let mut listed: Vec<(i32, i32, i32)> = Vec::new();
        let ghost links = self.links@;
        let ghost entries = self.links.iter().remaining();
        for entry in it: self.links.iter()
            invariant
                links == self.links@,
                it.seq() == entries,
                listed@.len() == it.index(),
                forall|k: int|
                    0 <= k < listed@.len() ==> (#[trigger] listed@[k]).0 == *entries[k].0 && (
                    listed@[k].1,
                    listed@[k].2,
                ) == *entries[k].1,
        {
            let (id, pins) = entry;
            listed.push((*id, pins.0, pins.1));
        }
        proof {
            assert(entries.no_duplicates());
            assert forall|k: int| 0 <= k < listed@.len() implies links.contains_key(
                (#[trigger] listed@[k]).0,
            ) && links[listed@[k].0] == (listed@[k].1, listed@[k].2) by {
                assert(links.contains_key(*entries[k].0));
                assert(links[*entries[k].0] == *entries[k].1);
            }
            assert forall|a: int, b: int|
                0 <= a < listed@.len() && 0 <= b < listed@.len() && a != b implies (
            #[trigger] listed@[a]).0 != (#[trigger] listed@[b]).0 by {
                assert(links[*entries[a].0] == *entries[a].1);
                assert(links[*entries[b].0] == *entries[b].1);
                if listed@[a].0 == listed@[b].0 {
                    assert(entries[a] == entries[b]);
                }
            }
            assert forall|id: i32| links.contains_key(id) implies exists|k: int|
                0 <= k < listed@.len() && (#[trigger] listed@[k]).0 == id by {
                assert(entries.contains((&id, &links[id])));
                let k = choose|k: int|
                    0 <= k < entries.len() && #[trigger] entries[k] == (&id, &links[id]);
                assert(listed@[k].0 == id);
            }
        }
        listed
    }

    /// The registered links that can be hit: those whose two pins resolve,
    /// each once, as `(id, start, end)` with an end given as its node and its
    /// pin. The order is not fixed.
    pub fn hittable_links(&self) -> (found: Vec<
        (i32, (SimpleNodeGeometry<C>, StoredPin<C>), (SimpleNodeGeometry<C>, StoredPin<C>)),
    >)
        ensures
            lists_hittable_links(found@, self@),
    {
        let mut found: Vec<
            (i32, (SimpleNodeGeometry<C>, StoredPin<C>), (SimpleNodeGeometry<C>, StoredPin<C>)),
        > = Vec::new();
        let listed = self.registered_links();
        let ghost state = self@;
        let ghost mut origin: Seq<int> = Seq::empty();
        let n = listed.len();
        let mut i: usize = 0;
        while i < n
            invariant
                n == listed.len(),
                i <= n,
                state == self@,
                lists_registered_links(listed@, state.links),
                origin.len() == found@.len(),
                forall|k: int|
                    0 <= k < origin.len() ==> 0 <= #[trigger] origin[k] < i && found@[k].0
                        == listed@[origin[k]].0,
                forall|a: int, b: int|
                    0 <= a < b < origin.len() ==> #[trigger] origin[a] < #[trigger] origin[b],
                forall|k: int|
                    0 <= k < found@.len() ==> {
                        let id = (#[trigger] found@[k]).0;
                        &&& state.links.contains_key(id)
                        &&& link_resolves(
                            state.nodes,
                            state.pins,
                            (id, state.links[id].0, state.links[id].1),
                        )
                        &&& found@[k] == resolved_link(
                            state.nodes,
                            state.pins,
                            (id, state.links[id].0, state.links[id].1),
                        )
                    },
                forall|e: int|
                    0 <= e < i && link_resolves(state.nodes, state.pins, #[trigger] listed@[e])
                        ==> exists|k: int| 0 <= k < found@.len() && #[trigger] origin[k] == e,
            decreases n - i,
        {
            let (id, start_pin, end_pin) = listed[i];
            match self.cache.resolve_link(start_pin, end_pin) {
                Some(((start_node, start), (end_node, end))) => {
                    let ghost before = found@;
                    let ghost old_origin = origin;
                    found.push((id, (*start_node, *start), (*end_node, *end)));
                    proof {
                        origin = origin.push(i as int);
                        assert forall|e: int|
                            0 <= e < i + 1 && link_resolves(
                                state.nodes,
                                state.pins,
                                #[trigger] listed@[e],
                            ) implies exists|k: int|
                            0 <= k < found@.len() && #[trigger] origin[k] == e by {
                            if e < i {
                                let k = choose|k: int|
                                    0 <= k < before.len() && #[trigger] old_origin[k] == e;
                                assert(origin[k] == e);
                            } else {
                                assert(origin[before.len() as int] == e);
                            }
                        }
                    }
                },
                None => {},
            }
            i += 1;
        }
        proof {
            assert forall|a: int, b: int|
                0 <= a < found@.len() && 0 <= b < found@.len() && a != b implies (
            #[trigger] found@[a]).0 != (#[trigger] found@[b]).0 by {
                if a < b {
                    assert(origin[a] < origin[b]);
                } else {
                    assert(origin[b] < origin[a]);
                }
                assert(listed@[origin[a]].0 != listed@[origin[b]].0);
            }
            assert forall|id: i32|
                state.links.contains_key(id) && link_resolves(
                    state.nodes,
                    state.pins,
                    (id, state.links[id].0, state.links[id].1),
                ) implies exists|k: int|
                0 <= k < found@.len() && (#[trigger] found@[k]).0 == id by {
                let e = choose|e: int| 0 <= e < listed@.len() && (#[trigger] listed@[e]).0 == id;
                assert(listed@[e] == (id, state.links[id].0, state.links[id].1));
                let k = choose|k: int| 0 <= k < found@.len() && #[trigger] origin[k] == e;
                assert(found@[k].0 == id);
            }
        }
        found
    }
}

/// Registering a link twice under one id leaves what the second
/// registration alone would have left.
pub proof fn lemma_register_link_overwrites(
    links: Map<i32, (i32, i32)>,
    id: i32,
    first: (i32, i32),
    second: (i32, i32),
)
    ensures
        links.insert(id, first).insert(id, second) == links.insert(id, second),
        links.insert(id, first).insert(id, first) == links.insert(id, first),
        links.insert(id, first).remove(id) == links.remove(id),
{
    assert(links.insert(id, first).insert(id, second) =~= links.insert(id, second));
    assert(links.insert(id, first).insert(id, first) =~= links.insert(id, first));
    assert(links.insert(id, first).remove(id) =~= links.remove(id));
}

} // verus!
