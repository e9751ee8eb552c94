//! The geometry cache: what the interface layer last reported of each node
//! and of each pin.
//!
//! Two maps, both keyed by id. A pin names the node that owns it, and that
//! node may be unknown to the cache: a pin *resolves* only when its node is
//! there too. Every lookup that goes from a pin to its node answers `None`
//! for a pin that does not resolve.

use crate::geometry::SimpleNodeGeometry;
use std::collections::HashMap;
use vstd::prelude::*;
use vstd::std_specs::hash::group_hash_axioms;
use vstd::std_specs::iter::IteratorSpec;

verus! {

broadcast use group_hash_axioms;

/// A pin as the cache keeps it: its owner, its kind, and where it sits
/// relative to the owner's origin.
///
/// The cache gives `pin_type` no meaning. Only a caller that passes an
/// "output" kind of its own compares it with anything.
#[derive(Clone, Copy, Debug)]
pub struct StoredPin<C> {
    pub node_id: i32,
    pub pin_type: i32,
    pub rel_x: C,
    pub rel_y: C,
}

/// Node geometry by node id, and pins by pin id.
///
/// `N` is the application's record of a node, `C` its coordinate type.
pub struct GeometryCache<N, C> {
    pub node_rects: HashMap<i32, N>,
    pub pin_positions: HashMap<i32, StoredPin<C>>,
}

/// The node that owns `pin`, if the pin is known.
pub open spec fn pin_owner<C>(pins: Map<i32, StoredPin<C>>, pin: i32) -> Option<i32> {
    if pins.contains_key(pin) {
        Some(pins[pin].node_id)
    } else {
        None
    }
}

/// Whether `pin` is known together with the node that owns it.
pub open spec fn pin_resolves<N, C>(
    nodes: Map<i32, N>,
    pins: Map<i32, StoredPin<C>>,
    pin: i32,
) -> bool {
    pins.contains_key(pin) && nodes.contains_key(pins[pin].node_id)
}

impl<N, C> Default for GeometryCache<N, C> {
    fn default() -> (cache: Self)
        ensures
            cache.node_rects@ == Map::<i32, N>::empty(),
            cache.pin_positions@ == Map::<i32, StoredPin<C>>::empty(),
    {
        GeometryCache { node_rects: HashMap::new(), pin_positions: HashMap::new() }
    }
}

impl<N, C> GeometryCache<N, C> {
    /// Creates a cache that knows no node and no pin.
    pub fn new() -> (cache: Self)
        ensures
            cache.node_rects@ == Map::<i32, N>::empty(),
            cache.pin_positions@ == Map::<i32, StoredPin<C>>::empty(),
    {
        GeometryCache { node_rects: HashMap::new(), pin_positions: HashMap::new() }
    }

    /// Records a pin, replacing what was known under `pin_id`.
    ///
    /// The owner need not be known to the cache.
    pub fn handle_pin_report(
        &mut self,
        pin_id: i32,
        node_id: i32,
        pin_type: i32,
        rel_x: C,
        rel_y: C,
    )
        ensures
            final(self).pin_positions@ == old(self).pin_positions@.insert(
                pin_id,
                (StoredPin { node_id, pin_type, rel_x, rel_y }),
            ),
            final(self).node_rects@ == old(self).node_rects@,
    {
        self.pin_positions.insert(pin_id, StoredPin { node_id, pin_type, rel_x, rel_y });
    }

    /// Records a node, replacing what was known under `id`.
    pub fn update_node(&mut self, id: i32, node: N)
        ensures
            final(self).node_rects@ == old(self).node_rects@.insert(id, node),
            final(self).pin_positions@ == old(self).pin_positions@,
    {
        self.node_rects.insert(id, node);
    }

    /// Forgets every node and every pin.
    pub fn clear(&mut self)
        ensures
            final(self).node_rects@ == Map::<i32, N>::empty(),
            final(self).pin_positions@ == Map::<i32, StoredPin<C>>::empty(),
    {
        self.node_rects.clear();
        self.pin_positions.clear();
    }

    /// The id of the node that owns `pin_id`, or `None` for an unknown pin.
    /// The node itself need not be known.
    pub fn pin_node(&self, pin_id: i32) -> (owner: Option<i32>)
        ensures
            owner == pin_owner(self.pin_positions@, pin_id),
    {
        match self.pin_positions.get(&pin_id) {
            Some(pin) => Some(pin.node_id),
            None => None,
        }
    }

    /// The pin stored under `pin_id` and the node that owns it.
    ///
    /// `None` when the pin is unknown, and also when its owner is.
    pub fn resolve_pin(&self, pin_id: i32) -> (found: Option<(&N, &StoredPin<C>)>)
        ensures
            found is Some <==> pin_resolves(self.node_rects@, self.pin_positions@, pin_id),
            found matches Some((node, pin)) ==> {
                &&& *pin == self.pin_positions@[pin_id]
                &&& *node == self.node_rects@[pin.node_id]
            },
    {
        match self.pin_positions.get(&pin_id) {
            Some(pin) => match self.node_rects.get(&pin.node_id) {
                Some(node) => Some((node, pin)),
                None => None,
            },
            None => None,
        }
    }

    /// Both ends of a link, each as [`resolve_pin`](Self::resolve_pin) gives
    /// it: the start first.
    ///
    /// `None` unless both pins resolve.
    pub fn resolve_link(&self, start_pin: i32, end_pin: i32) -> (found: Option<
        ((&N, &StoredPin<C>), (&N, &StoredPin<C>)),
    >)
        ensures
            found is Some <==> pin_resolves(self.node_rects@, self.pin_positions@, start_pin)
                && pin_resolves(self.node_rects@, self.pin_positions@, end_pin),
            found matches Some(((start_node, start), (end_node, end))) ==> {
                &&& *start == self.pin_positions@[start_pin]
                &&& *start_node == self.node_rects@[start.node_id]
                &&& *end == self.pin_positions@[end_pin]
                &&& *end_node == self.node_rects@[end.node_id]
            },
    {
        let start = match self.pin_positions.get(&start_pin) {
            Some(pin) => pin,
            None => {
                return None;
            },
        };
        let end = match self.pin_positions.get(&end_pin) {
            Some(pin) => pin,
            None => {
                return None;
            },
        };
        let start_node = match self.node_rects.get(&start.node_id) {
            Some(node) => node,
            None => {
                return None;
            },
        };
        let end_node = match self.node_rects.get(&end.node_id) {
            Some(node) => node,
            None => {
                return None;
            },
        };
        Some(((start_node, start), (end_node, end)))
    }
}

/// Whether both pins of the link `(id, start_pin, end_pin)` resolve.
pub open spec fn link_resolves<N, C>(
    nodes: Map<i32, N>,
    pins: Map<i32, StoredPin<C>>,
    link: (i32, i32, i32),
) -> bool {
    pin_resolves(nodes, pins, link.1) && pin_resolves(nodes, pins, link.2)
}

/// What the cache knows of the two ends of the link `(id, start_pin,
/// end_pin)`: the id, then the start's node and pin, then the end's.
pub open spec fn resolved_link<N, C>(
    nodes: Map<i32, N>,
    pins: Map<i32, StoredPin<C>>,
    link: (i32, i32, i32),
) -> (i32, (N, StoredPin<C>), (N, StoredPin<C>))
    recommends
        link_resolves(nodes, pins, link),
{
    (
        link.0,
        (nodes[pins[link.1].node_id], pins[link.1]),
        (nodes[pins[link.2].node_id], pins[link.2]),
    )
}

/// The links of `links` whose two pins resolve, in order, each with what
/// the cache knows of its ends.
pub open spec fn resolved_links_of<N, C>(
    nodes: Map<i32, N>,
    pins: Map<i32, StoredPin<C>>,
    links: Seq<(i32, i32, i32)>,
) -> Seq<(i32, (N, StoredPin<C>), (N, StoredPin<C>))> {
    links.filter(|link: (i32, i32, i32)| link_resolves(nodes, pins, link)).map_values(
        |link: (i32, i32, i32)| resolved_link(nodes, pins, link),
    )
}

/// Whether `found` lists every pin that resolves once, with the pin as it is
/// stored and the node that owns it.
pub open spec fn lists_resolved_pins<N, C>(
    found: Seq<(i32, (N, StoredPin<C>))>,
    nodes: Map<i32, N>,
    pins: Map<i32, StoredPin<C>>,
) -> bool {
    &&& forall|a: int, b: int|
        0 <= a < found.len() && 0 <= b < found.len() && a != b ==> (#[trigger] found[a]).0 != (
        #[trigger] found[b]).0
    &&& forall|k: int|
        0 <= k < found.len() ==> {
            let (pin_id, (node, pin)) = #[trigger] found[k];
            &&& pin_resolves(nodes, pins, pin_id)
            &&& pin == pins[pin_id]
            &&& node == nodes[pin.node_id]
        }
    &&& forall|pin_id: i32|
        pin_resolves(nodes, pins, pin_id) ==> exists|k: int|
            0 <= k < found.len() && (#[trigger] found[k]).0 == pin_id
}

impl<N: Copy, C: Copy> GeometryCache<N, C> {
    /// Every pin that resolves, once, with the node that owns it. The order
    /// is not fixed.
    ///
    /// A pin whose node is unknown is passed over.
    pub fn resolved_pins(&self) -> (found: Vec<(i32, (N, StoredPin<C>))>)
        ensures
            lists_resolved_pins(found@, self.node_rects@, self.pin_positions@),
    {
        let mut found: Vec<(i32, (N, StoredPin<C>))> = Vec::new();
        let ghost nodes = self.node_rects@;
        let ghost pins = self.pin_positions@;
        let ghost entries = self.pin_positions.iter().remaining();
        let ghost mut origin: Seq<int> = Seq::empty();
        for entry in it: self.pin_positions.iter()
            invariant
                nodes == self.node_rects@,
                pins == self.pin_positions@,
                it.seq() == entries,
                origin.len() == found@.len(),
                forall|k: int|
                    0 <= k < origin.len() ==> 0 <= #[trigger] origin[k] < it.index()
                        && found@[k].0 == *entries[origin[k]].0,
                forall|a: int, b: int|
                    0 <= a < b < origin.len() ==> #[trigger] origin[a] < #[trigger] origin[b],
                forall|k: int|
                    0 <= k < found@.len() ==> {
                        let (pin_id, (node, pin)) = #[trigger] found@[k];
                        &&& pin_resolves(nodes, pins, pin_id)
                        &&& pin == pins[pin_id]
                        &&& node == nodes[pin.node_id]
                    },
                forall|e: int|
                    0 <= e < it.index() && pin_resolves(nodes, pins, *(#[trigger] entries[e]).0)
                        ==> exists|k: int| 0 <= k < found@.len() && #[trigger] origin[k] == e,
        {
            let (pin_id, pin) = entry;
            let ghost at = it.index() as int;
            proof {
                assert(pins.contains_key(*entries[at].0));
                assert(pins[*entries[at].0] == *entries[at].1);
            }
            match self.node_rects.get(&pin.node_id) {
                Some(node) => {
                    let ghost before = found@;
                    let ghost old_origin = origin;
                    found.push((*pin_id, (*node, *pin)));
                    proof {
                        origin = origin.push(at);
                        assert forall|e: int|
                            0 <= e < at + 1 && pin_resolves(
                                nodes,
                                pins,
                                *(#[trigger] entries[e]).0,
                            ) implies exists|k: int|
                            0 <= k < found@.len() && #[trigger] origin[k] == e by {
                            if e < at {
                                let k = choose|k: int|
                                    0 <= k < before.len() && #[trigger] old_origin[k] == e;
                                assert(origin[k] == e);
                            } else {
                                assert(origin[before.len() as int] == e);
                            }
                        }
                    }
                },
                None => {},
            }
        }
        proof {
            assert(entries.no_duplicates());
            assert forall|a: int, b: int|
                0 <= a < found@.len() && 0 <= b < found@.len() && a != b implies (
            #[trigger] found@[a]).0 != (#[trigger] found@[b]).0 by {
                if a < b {
                    assert(origin[a] < origin[b]);
                } else {
                    assert(origin[b] < origin[a]);
                }
                let ea = entries[origin[a]];
                let eb = entries[origin[b]];
                assert(pins[*ea.0] == *ea.1);
                assert(pins[*eb.0] == *eb.1);
                if found@[a].0 == found@[b].0 {
                    assert(ea == eb);
                }
            }
            assert forall|pin_id: i32| pin_resolves(nodes, pins, pin_id) implies exists|k: int|
                0 <= k < found@.len() && (#[trigger] found@[k]).0 == pin_id by {
                assert(entries.contains((&pin_id, &pins[pin_id])));
                let e = choose|e: int|
                    0 <= e < entries.len() && #[trigger] entries[e] == (&pin_id, &pins[pin_id]);
                let k = choose|k: int| 0 <= k < found@.len() && #[trigger] origin[k] == e;
                assert(found@[k].0 == pin_id);
            }
        }
        found
    }

    /// The links of `links` whose two pins resolve, in the order of `links`,
    /// each as `(id, start, end)` with an end given as its node and its pin.
    ///
    /// `links` holds `(id, start_pin, end_pin)`. A link with a pin that does
    /// not resolve is passed over.
    pub fn resolved_links(&self, links: &[(i32, i32, i32)]) -> (found: Vec<
        (i32, (N, StoredPin<C>), (N, StoredPin<C>)),
    >)
        ensures
            found@ == resolved_links_of(self.node_rects@, self.pin_positions@, links@),
    {
        let mut found: Vec<(i32, (N, StoredPin<C>), (N, StoredPin<C>))> = Vec::new();
        let n = links.len();
        let mut i: usize = 0;
        while i < n
            invariant
                n == links.len(),
                i <= n,
                found@ == resolved_links_of(
                    self.node_rects@,
                    self.pin_positions@,
                    links@.take(i as int),
                ),
            decreases n - i,
        {
            let (id, start_pin, end_pin) = links[i];
            proof {
                lemma_resolved_links_step(self.node_rects@, self.pin_positions@, links@, i as int);
            }
            match self.resolve_link(start_pin, end_pin) {
                Some(((start_node, start), (end_node, end))) => {
                    found.push((id, (*start_node, *start), (*end_node, *end)));
                },
                None => {},
            }
            i += 1;
        }
        proof {
            assert(links@.take(n as int) =~= links@);
        }
        found
    }
}

/// One more link extends the resolved links by what the cache knows of it
/// when both of its pins resolve, and leaves them as they are when not.
proof fn lemma_resolved_links_step<N, C>(
    nodes: Map<i32, N>,
    pins: Map<i32, StoredPin<C>>,
    links: Seq<(i32, i32, i32)>,
    i: int,
)
    requires
        0 <= i < links.len(),
    ensures
        resolved_links_of(nodes, pins, links.take(i + 1)) == if link_resolves(
            nodes,
            pins,
            links[i],
        ) {
            resolved_links_of(nodes, pins, links.take(i)).push(resolved_link(nodes, pins, links[i]))
        } else {
            resolved_links_of(nodes, pins, links.take(i))
        },
{
    let keep = |link: (i32, i32, i32)| link_resolves(nodes, pins, link);
    let resolve = |link: (i32, i32, i32)| resolved_link(nodes, pins, link);
    let longer = links.take(i + 1);
    let shorter = links.take(i);
    assert(longer.drop_last() =~= shorter);
    assert(longer.last() == links[i]);
    reveal_with_fuel(Seq::filter, 2);
    if link_resolves(nodes, pins, links[i]) {
        assert(longer.filter(keep) == shorter.filter(keep).push(links[i]));
        assert(shorter.filter(keep).push(links[i]).map_values(resolve) =~= shorter.filter(
            keep,
        ).map_values(resolve).push(resolve(links[i])));
    } else {
        assert(longer.filter(keep) == shorter.filter(keep));
    }
}

impl<C> GeometryCache<SimpleNodeGeometry<C>, C> {
    /// Records the rectangle of node `id`, replacing what was known of it.
    pub fn update_node_rect(&mut self, id: i32, x: C, y: C, width: C, height: C)
        ensures
            final(self).node_rects@ == old(self).node_rects@.insert(
                id,
                (SimpleNodeGeometry { id, x, y, width, height }),
            ),
            final(self).pin_positions@ == old(self).pin_positions@,
    {
        self.node_rects.insert(id, SimpleNodeGeometry { id, x, y, width, height });
    }

    /// Takes a rectangle report for node `id`: the same as
    /// [`update_node_rect`](Self::update_node_rect).
    pub fn handle_node_rect_report(&mut self, id: i32, x: C, y: C, w: C, h: C)
        ensures
            final(self).node_rects@ == old(self).node_rects@.insert(
                id,
                (SimpleNodeGeometry { id, x, y, width: w, height: h }),
            ),
            final(self).pin_positions@ == old(self).pin_positions@,
    {
        self.update_node_rect(id, x, y, w, h);
    }
}

/// Reports overwrite: a second report under the same id leaves what the
/// second alone would have left, and adds no entry.
pub proof fn lemma_report_overwrites<V>(known: Map<i32, V>, id: i32, first: V, second: V)
    ensures
        known.insert(id, first).insert(id, second) == known.insert(id, second),
        known.insert(id, first).insert(id, second).dom() == known.insert(id, first).dom(),
        known.insert(id, first).insert(id, second)[id] == second,
{
    assert(known.insert(id, first).insert(id, second) =~= known.insert(id, second));
    assert(known.insert(id, first).insert(id, second).dom() =~= known.insert(id, first).dom());
}

/// However often one id is reported to an empty map, the map ends with one
/// entry: the last report.
pub proof fn lemma_reports_of_one_id<V>(id: i32, reports: Seq<V>)
    requires
        reports.len() > 0,
    ensures
        after_reports(Map::<i32, V>::empty(), id, reports).dom() == set![id],
        after_reports(Map::<i32, V>::empty(), id, reports).dom().len() == 1,
        after_reports(Map::<i32, V>::empty(), id, reports)[id] == reports.last(),
    decreases reports.len(),
{
    let empty = Map::<i32, V>::empty();
    if reports.len() == 1 {
        assert(reports.drop_last() =~= Seq::<V>::empty());
        assert(after_reports(empty, id, reports.drop_last()) == empty);
        assert(empty.insert(id, reports.last()).dom() =~= set![id]);
    } else {
        lemma_reports_of_one_id(id, reports.drop_last());
        let before = after_reports(empty, id, reports.drop_last());
        assert(before.insert(id, reports.last()).dom() =~= set![id]);
    }
}

/// The map that `known` becomes when `reports` arrive in order, all under
/// `id`.
pub open spec fn after_reports<V>(known: Map<i32, V>, id: i32, reports: Seq<V>) -> Map<i32, V>
    decreases reports.len(),
{
    if reports.len() == 0 {
        known
    } else {
        after_reports(known, id, reports.drop_last()).insert(id, reports.last())
    }
}

} // verus!
