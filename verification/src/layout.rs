//! Layered layout of the graph: everything about it that is bookkeeping.
//!
//! A layering algorithm works on vertices numbered `0, 1, 2, ...` and knows
//! nothing of node ids. This module numbers the nodes, carries the edges over
//! to the numbers, and carries the algorithm's answer back to ids:
//!
//! 1. [`prepare_layout`] turns edges and node sizes into a [`LayoutGraph`];
//! 2. the caller runs the layering algorithm on the graph's `vertices` and
//!    `edges`;
//! 3. [`collect_positions`] turns what the algorithm returns into one
//!    [`NodePosition`] per placed node.
//!
//! Sizes and coordinates pass through untouched, so both are type
//! parameters. For a layout that runs left to right the two components of
//! each size are swapped on the way in and those of each position on the
//! way out: the algorithm itself always stacks its layers along `y`.

use crate::geometry::NodeGeometry;
use crate::state::{GeometryCache, StoredPin};
use std::collections::HashMap;
use vstd::prelude::*;
use vstd::std_specs::hash::group_hash_axioms;
use vstd::std_specs::iter::IteratorSpec;

verus! {

broadcast use group_hash_axioms;

/// The axis along which the layers follow each other.
#[derive(Debug, Clone, Copy, PartialEq, Eq, Structural)]
#[non_exhaustive]
pub enum Direction {
    /// Layers follow each other downwards.
    TopToBottom,
    /// Layers follow each other to the right.
    LeftToRight,
}

impl Default for Direction {
    fn default() -> (direction: Self)
        ensures
            direction == Direction::TopToBottom,
    {
        Direction::TopToBottom
    }
}

/// Where the layout puts the top-left corner of node `id`.
#[derive(Debug, Clone, Copy, PartialEq)]
pub struct NodePosition<C> {
    pub id: i32,
    pub x: C,
    pub y: C,
}

/// A graph as a layering algorithm takes it.
///
/// Vertex `k` stands for node `ids[k]`. `vertices[k]` is `(k, size)`, and
/// each edge is a pair of vertex numbers.
pub struct LayoutGraph<S> {
    pub ids: Vec<i32>,
    pub vertices: Vec<(u32, (S, S))>,
    pub edges: Vec<(u32, u32)>,
}

/// `ids` without the later occurrences of an id that occurred before.
pub open spec fn distinct_ids(ids: Seq<i32>) -> Seq<i32>
    decreases ids.len(),
{
    if ids.len() == 0 {
        Seq::empty()
    } else {
        let front = distinct_ids(ids.drop_last());
        if front.contains(ids.last()) {
            front
        } else {
            front.push(ids.last())
        }
    }
}

/// The id of each entry of `node_sizes`, in order.
pub open spec fn entry_ids<S>(node_sizes: Seq<(i32, (S, S))>) -> Seq<i32> {
    node_sizes.map_values(|entry: (i32, (S, S))| entry.0)
}

/// The size that the first entry for `id` gives.
pub open spec fn first_size<S>(node_sizes: Seq<(i32, (S, S))>, id: i32) -> (S, S)
    recommends
        entry_ids(node_sizes).contains(id),
    decreases node_sizes.len(),
{
    if node_sizes.len() == 0 {
        arbitrary()
    } else if node_sizes[0].0 == id {
        node_sizes[0].1
    } else {
        first_size(node_sizes.drop_first(), id)
    }
}

/// A pair as the algorithm sees it, or as the caller sees it: swapped for a
/// layout that runs left to right, as it is for one that runs downwards.
pub open spec fn oriented<T>(pair: (T, T), direction: Direction) -> (T, T) {
    match direction {
        Direction::LeftToRight => (pair.1, pair.0),
        Direction::TopToBottom => pair,
    }
}

/// The vertices for the nodes `ids`: vertex `k` has the number `k` and the
/// size of the first entry for `ids[k]`, oriented.
pub open spec fn layout_vertices<S>(
    node_sizes: Seq<(i32, (S, S))>,
    ids: Seq<i32>,
    direction: Direction,
) -> Seq<(u32, (S, S))> {
    Seq::new(
        ids.len(),
        |k: int| (k as u32, oriented(first_size(node_sizes, ids[k]), direction)),
    )
}

/// Whether both ends of `edge` are among `ids`.
pub open spec fn edge_known(ids: Seq<i32>, edge: (i32, i32)) -> bool {
    ids.contains(edge.0) && ids.contains(edge.1)
}

/// The edges whose two ends are among `ids`, in order, each end replaced by
/// its position in `ids`.
pub open spec fn mapped_edges(ids: Seq<i32>, edges: Seq<(i32, i32)>) -> Seq<(u32, u32)> {
    edges.filter(|edge: (i32, i32)| edge_known(ids, edge)).map_values(
        |edge: (i32, i32)| (ids.index_of(edge.0) as u32, ids.index_of(edge.1) as u32),
    )
}

impl<S> LayoutGraph<S> {
    /// What the layering algorithm may rely on: no id stands twice, vertex
    /// `k` carries the number `k`, the numbers fit the vertex type, and every
    /// edge joins two vertices of the graph.
    pub open spec fn well_formed(&self) -> bool {
        &&& self.ids@.no_duplicates()
        &&& self.ids@.len() <= 0x1_0000_0000
        &&& self.vertices@.len() == self.ids@.len()
        &&& forall|k: int| 0 <= k < self.vertices@.len() ==> (#[trigger] self.vertices@[k]).0 == k
        &&& forall|j: int|
            0 <= j < self.edges@.len() ==> (#[trigger] self.edges@[j]).0 < self.ids@.len()
                && self.edges@[j].1 < self.ids@.len()
    }
}

/// Numbers the nodes and carries sizes and edges over to the numbers.
///
/// Every distinct id in `node_sizes` becomes a vertex, in the order of first
/// occurrence; of several entries for one id the first counts. An edge with
/// an end that is not in `node_sizes` is left out.
pub fn prepare_layout<S: Copy>(
    edges: &[(i32, i32)],
    node_sizes: &[(i32, (S, S))],
    direction: Direction,
) -> (graph: LayoutGraph<S>)
    ensures
        graph.ids@ == distinct_ids(entry_ids(node_sizes@)),
        graph.vertices@ == layout_vertices(node_sizes@, graph.ids@, direction),
        graph.edges@ == mapped_edges(graph.ids@, edges@),
        graph.well_formed(),
{
    let mut id_to_idx: HashMap<i32, u32> = HashMap::new();
    let mut ids: Vec<i32> = Vec::new();
    let mut vertices: Vec<(u32, (S, S))> = Vec::new();

    let n = node_sizes.len();
    let mut i: usize = 0;
    while i < n
        invariant
            n == node_sizes.len(),
            i <= n,
            ids@ == distinct_ids(entry_ids(node_sizes@.take(i as int))),
            ids@.no_duplicates(),
            forall|id: i32| id_to_idx@.contains_key(id) <==> ids@.contains(id),
            forall|k: int|
                0 <= k < ids@.len() ==> id_to_idx@.contains_key(#[trigger] ids@[k])
                    && id_to_idx@[ids@[k]] == k,
            vertices@ == layout_vertices(node_sizes@.take(i as int), ids@, direction),
        decreases n - i,
    {
        let (node_id, (width, height)) = node_sizes[i];
        let ghost seen = node_sizes@.take(i as int);
        let ghost longer = node_sizes@.take(i + 1);
        proof {
            assert(longer.drop_last() =~= seen);
            assert(entry_ids(longer).drop_last() =~= entry_ids(seen));
            assert(entry_ids(longer).last() == node_id);
            lemma_distinct_ids_holds_all(entry_ids(seen));
            lemma_distinct_ids_holds_all(entry_ids(longer));
        }
        if !id_to_idx.contains_key(&node_id) {
            proof {
                lemma_distinct_i32_bound(ids@.push(node_id));
            }
            let ghost old_ids = ids@;
            let idx = ids.len() as u32;
            id_to_idx.insert(node_id, idx);
            ids.push(node_id);
            proof {
                assert forall|id: i32| id_to_idx@.contains_key(id) <==> ids@.contains(id) by {
                    if id == node_id {
                        assert(ids@[old_ids.len() as int] == id);
                    } else {
                        if old_ids.contains(id) {
                            let k = choose|k: int|
                                0 <= k < old_ids.len() && #[trigger] old_ids[k] == id;
                            assert(ids@[k] == id);
                        }
                        if ids@.contains(id) {
                            let k = choose|k: int| 0 <= k < ids@.len() && #[trigger] ids@[k] == id;
                            assert(old_ids[k] == id);
                        }
                    }
                }
                assert forall|k: int| 0 <= k < ids@.len() implies id_to_idx@.contains_key(
                    #[trigger] ids@[k],
                ) && id_to_idx@[ids@[k]] == k by {
                    if k < old_ids.len() {
                        assert(old_ids[k] == ids@[k]);
                        assert(old_ids.contains(ids@[k]));
                    }
                }
            }
            let size = match direction {
                Direction::LeftToRight => (height, width),
                Direction::TopToBottom => (width, height),
            };
            vertices.push((idx, size));
            proof {
                assert forall|k: int| 0 <= k < ids@.len() implies first_size(longer, ids@[k])
                    == if k < ids@.len() - 1 {
                    first_size(seen, ids@[k])
                } else {
                    (width, height)
                } by {
                    lemma_first_size_step(node_sizes@, i as int, ids@[k]);
                }
                assert(vertices@ =~= layout_vertices(longer, ids@, direction));
            }
        } else {
            proof {
                assert forall|k: int| 0 <= k < ids@.len() implies first_size(longer, ids@[k])
                    == first_size(seen, ids@[k]) by {
                    lemma_first_size_step(node_sizes@, i as int, ids@[k]);
                }
                assert(vertices@ =~= layout_vertices(longer, ids@, direction));
            }
        }
        i += 1;
    }
    proof {
        assert(node_sizes@.take(n as int) =~= node_sizes@);
        lemma_distinct_i32_bound(ids@);
    }

    let mut mapped: Vec<(u32, u32)> = Vec::new();
    let m = edges.len();
    let mut j: usize = 0;
    while j < m
        invariant
            m == edges.len(),
            j <= m,
            ids@.no_duplicates(),
            ids@.len() <= 0x1_0000_0000,
            forall|id: i32| id_to_idx@.contains_key(id) <==> ids@.contains(id),
            forall|k: int|
                0 <= k < ids@.len() ==> id_to_idx@.contains_key(#[trigger] ids@[k])
                    && id_to_idx@[ids@[k]] == k,
            mapped@ == mapped_edges(ids@, edges@.take(j as int)),
            forall|e: int|
                0 <= e < mapped@.len() ==> (#[trigger] mapped@[e]).0 < ids@.len() && mapped@[e].1
                    < ids@.len(),
        decreases m - j,
    {
        let (src, dst) = edges[j];
        proof {
            lemma_mapped_edges_step(ids@, edges@, j as int);
        }
        match id_to_idx.get(&src) {
            Some(src_idx) => match id_to_idx.get(&dst) {
                Some(dst_idx) => {
                    proof {
                        lemma_index_of_unique(ids@, src, *src_idx as int);
                        lemma_index_of_unique(ids@, dst, *dst_idx as int);
                    }
                    mapped.push((*src_idx, *dst_idx));
                },
                None => {},
            },
            None => {},
        }
        j += 1;
    }
    proof {
        assert(edges@.take(m as int) =~= edges@);
    }
    LayoutGraph { ids, vertices, edges: mapped }
}

/// Whether `graph` is what [`prepare_layout`] makes of the edges and sizes.
pub open spec fn is_prepared<S>(
    graph: LayoutGraph<S>,
    edges: Seq<(i32, i32)>,
    node_sizes: Seq<(i32, (S, S))>,
    direction: Direction,
) -> bool {
    &&& graph.ids@ == distinct_ids(entry_ids(node_sizes))
    &&& graph.vertices@ == layout_vertices(node_sizes, graph.ids@, direction)
    &&& graph.edges@ == mapped_edges(graph.ids@, edges)
    &&& graph.well_formed()
}

/// Lays the graph out in layers: prepares it, lets `layering` place the
/// vertices, and carries the answer back to node ids.
///
/// `layering` stands for the layering algorithm. It is given the prepared
/// graph, which is well formed, and answers with subgraphs as
/// [`collect_positions`] takes them. Without nodes there is nothing to place
/// and `layering` is not called.
pub fn sugiyama_layout<S: Copy, C: Copy, F>(
    edges: &[(i32, i32)],
    node_sizes: &[(i32, (S, S))],
    direction: Direction,
    layering: F,
) -> (positions: Vec<NodePosition<C>>) where
    F: FnOnce(&LayoutGraph<S>) -> Vec<(Vec<(usize, (C, C))>, C, C)>,

    requires
        forall|graph: &LayoutGraph<S>| graph.well_formed() ==> layering.requires((graph,)),
    ensures
        node_sizes@.len() == 0 ==> positions@ == Seq::<NodePosition<C>>::empty(),
        node_sizes@.len() > 0 ==> exists|
            graph: LayoutGraph<S>,
            answer: Vec<(Vec<(usize, (C, C))>, C, C)>,
        |
            {
                &&& is_prepared(graph, edges@, node_sizes@, direction)
                &&& layering.ensures((&graph,), answer)
                &&& positions@ == all_positions(graph.ids@, direction, answer@)
            },
{
    if node_sizes.len() == 0 {
        return Vec::new();
    }
    let graph = prepare_layout(edges, node_sizes, direction);
    let answer = layering(&graph);
    let positions = collect_positions(graph.ids.as_slice(), answer.as_slice(), direction);
    proof {
        assert(is_prepared(graph, edges@, node_sizes@, direction));
        assert(layering.ensures((&graph,), answer));
    }
    positions
}

/// The position that `entry` of the algorithm's answer gives to its node.
pub open spec fn placed<C>(
    ids: Seq<i32>,
    direction: Direction,
    entry: (usize, (C, C)),
) -> NodePosition<C>
    recommends
        entry.0 < ids.len(),
{
    let point = oriented(entry.1, direction);
    NodePosition { id: ids[entry.0 as int], x: point.0, y: point.1 }
}

/// The positions that one subgraph of the answer gives: one for each entry
/// whose vertex number is a vertex of the graph, in order.
pub open spec fn subgraph_positions<C>(
    ids: Seq<i32>,
    direction: Direction,
    layout: Seq<(usize, (C, C))>,
) -> Seq<NodePosition<C>> {
    layout.filter(|entry: (usize, (C, C))| entry.0 < ids.len()).map_values(
        |entry: (usize, (C, C))| placed(ids, direction, entry),
    )
}

/// The positions that all subgraphs of the answer give, subgraph after
/// subgraph.
pub open spec fn all_positions<C>(
    ids: Seq<i32>,
    direction: Direction,
    subgraphs: Seq<(Vec<(usize, (C, C))>, C, C)>,
) -> Seq<NodePosition<C>>
    decreases subgraphs.len(),
{
    if subgraphs.len() == 0 {
        Seq::empty()
    } else {
        all_positions(ids, direction, subgraphs.drop_last()) + subgraph_positions(
            ids,
            direction,
            subgraphs.last().0@,
        )
    }
}

/// Carries the layering algorithm's answer back to node ids.
///
/// `subgraphs` is the answer: for each connected part of the graph its
/// entries `(vertex, (x, y))`, then the part's width and height, which are
/// not used. `ids` numbers the vertices as in [`LayoutGraph`]. An entry whose
/// vertex number is no vertex is passed over.
pub fn collect_positions<C: Copy>(
    ids: &[i32],
    subgraphs: &[(Vec<(usize, (C, C))>, C, C)],
    direction: Direction,
) -> (positions: Vec<NodePosition<C>>)
    ensures
        positions@ == all_positions(ids@, direction, subgraphs@),
{
    let mut positions: Vec<NodePosition<C>> = Vec::new();
    let n = subgraphs.len();
    let mut s: usize = 0;
    while s < n
        invariant
            n == subgraphs.len(),
            s <= n,
            positions@ == all_positions(ids@, direction, subgraphs@.take(s as int)),
        decreases n - s,
    {
        let layout = &subgraphs[s].0;
        let ghost done = positions@;
        proof {
            assert(subgraphs@.take(s + 1).drop_last() =~= subgraphs@.take(s as int));
            assert(subgraphs@.take(s + 1).last() == subgraphs@[s as int]);
        }
        let m = layout.len();
        let mut e: usize = 0;
        while e < m
            invariant
                m == layout.len(),
                e <= m,
                positions@ == done + subgraph_positions(ids@, direction, layout@.take(e as int)),
            decreases m - e,
        {
            let (idx, (x, y)) = layout[e];
            proof {
                lemma_subgraph_positions_step(ids@, direction, layout@, e as int);
            }
            if idx < ids.len() {
                let (px, py) = match direction {
                    Direction::LeftToRight => (y, x),
                    Direction::TopToBottom => (x, y),
                };
                positions.push(NodePosition { id: ids[idx], x: px, y: py });
                assert(positions@ =~= done + subgraph_positions(
                    ids@,
                    direction,
                    layout@.take(e + 1),
                ));
            }
            e += 1;
        }
        proof {
            assert(layout@.take(m as int) =~= layout@);
        }
        s += 1;
    }
    proof {
        assert(subgraphs@.take(n as int) =~= subgraphs@);
    }
    positions
}

/// The edge between nodes that an edge between pins stands for.
///
/// `None` when a pin is unknown, and when both pins belong to one node.
pub open spec fn node_edge<C>(pins: Map<i32, StoredPin<C>>, edge: (i32, i32)) -> Option<
    (i32, i32),
> {
    if pins.contains_key(edge.0) && pins.contains_key(edge.1) && pins[edge.0].node_id
        != pins[edge.1].node_id {
        Some((pins[edge.0].node_id, pins[edge.1].node_id))
    } else {
        None
    }
}

/// The edges between nodes that `edges` between pins stand for, each once,
/// in the order in which they first occur.
pub open spec fn node_edges<C>(pins: Map<i32, StoredPin<C>>, edges: Seq<(i32, i32)>) -> Seq<
    (i32, i32),
>
    decreases edges.len(),
{
    if edges.len() == 0 {
        Seq::empty()
    } else {
        let front = node_edges(pins, edges.drop_last());
        match node_edge(pins, edges.last()) {
            Some(edge) => if front.contains(edge) {
                front
            } else {
                front.push(edge)
            },
            None => front,
        }
    }
}

/// Turns edges between pins into edges between the nodes that own them.
///
/// An edge with an unknown pin is left out, so is one between two pins of
/// one node, and so is one that gives a pair of nodes that an earlier edge
/// gave.
pub fn node_edges_from_pins<N, C>(cache: &GeometryCache<N, C>, edges: &[(i32, i32)]) -> (result:
    Vec<(i32, i32)>)
    ensures
        result@ == node_edges(cache.pin_positions@, edges@),
        result@.no_duplicates(),
{
    let mut result: Vec<(i32, i32)> = Vec::new();
    let n = edges.len();
    let mut i: usize = 0;
    while i < n
        invariant
            n == edges.len(),
            i <= n,
            result@ == node_edges(cache.pin_positions@, edges@.take(i as int)),
            result@.no_duplicates(),
        decreases n - i,
    {
        let (start_pin, end_pin) = edges[i];
        proof {
            assert(edges@.take(i + 1).drop_last() =~= edges@.take(i as int));
            assert(edges@.take(i + 1).last() == edges@[i as int]);
        }
        match cache.pin_node(start_pin) {
            Some(src_node) => match cache.pin_node(end_pin) {
                Some(dst_node) => {
                    if src_node != dst_node && !holds_edge(&result, src_node, dst_node) {
                        result.push((src_node, dst_node));
                    }
                },
                None => {},
            },
            None => {},
        }
        i += 1;
    }
    proof {
        assert(edges@.take(n as int) =~= edges@);
    }
    result
}

/// Whether `edges` holds the edge from `src` to `dst`.
fn holds_edge(edges: &Vec<(i32, i32)>, src: i32, dst: i32) -> (found: bool)
    ensures
        found == edges@.contains((src, dst)),
{
    let n = edges.len();
    let mut i: usize = 0;
    while i < n
        invariant
            n == edges.len(),
            i <= n,
            forall|k: int| 0 <= k < i ==> edges@[k] != (src, dst),
        decreases n - i,
    {
        let (a, b) = edges[i];
        if a == src && b == dst {
            assert(edges@[i as int] == (src, dst));
            return true;
        }
        i += 1;
    }
    false
}

/// Whether `sizes` lists every node of `nodes` once, with the width and the
/// height of its rectangle.
pub open spec fn lists_node_sizes<N: NodeGeometry<C>, C>(
    sizes: Seq<(i32, (C, C))>,
    nodes: Map<i32, N>,
) -> bool {
    &&& entry_ids(sizes).no_duplicates()
    &&& entry_ids(sizes).to_set() == nodes.dom()
    &&& forall|k: int|
        0 <= k < sizes.len() ==> nodes.contains_key((#[trigger] sizes[k]).0) && sizes[k].1 == (
            nodes[sizes[k].0].node_rect().2,
            nodes[sizes[k].0].node_rect().3,
        )
}

/// The size of every node in the cache, as `(id, (width, height))`, each
/// node once. The order is not fixed.
pub fn node_sizes_from_cache<N: NodeGeometry<C>, C>(cache: &GeometryCache<N, C>) -> (sizes: Vec<
    (i32, (C, C)),
>)
    ensures
        lists_node_sizes(sizes@, cache.node_rects@),
{
    let mut sizes: Vec<(i32, (C, C))> = Vec::new();
    let ghost entries = cache.node_rects.iter().remaining();
    for entry in it: cache.node_rects.iter()
        invariant
            it.seq() == entries,
            sizes@.len() == it.index(),
            forall|k: int|
                0 <= k < sizes@.len() ==> (#[trigger] sizes@[k]).0 == *entries[k].0 && sizes@[k].1
                    == ((*entries[k].1).node_rect().2, (*entries[k].1).node_rect().3),
    {
        let (id, node) = entry;
        let (_, _, width, height) = node.rect();
        sizes.push((*id, (width, height)));
    }
    proof {
        let ids = entry_ids(sizes@);
        let nodes = cache.node_rects@;
        assert(sizes@.len() == entries.len());
        assert(entries.no_duplicates());
        assert forall|a: int, b: int|
            0 <= a < ids.len() && 0 <= b < ids.len() && a != b implies ids[a] != ids[b] by {
            assert(nodes[*entries[a].0] == *entries[a].1);
            assert(nodes[*entries[b].0] == *entries[b].1);
            if ids[a] == ids[b] {
                assert(entries[a] == entries[b]);
            }
        }
        assert forall|id: i32| ids.to_set().contains(id) <==> nodes.dom().contains(id) by {
            if ids.to_set().contains(id) {
                let k = choose|k: int| 0 <= k < ids.len() && #[trigger] ids[k] == id;
                assert(nodes.contains_key(*entries[k].0));
            }
            if nodes.dom().contains(id) {
                assert(entries.contains((&id, &nodes[id])));
                let k = choose|k: int|
                    0 <= k < entries.len() && #[trigger] entries[k] == (&id, &nodes[id]);
                assert(ids[k] == id);
            }
        }
        assert(ids.to_set() =~= nodes.dom());
        assert forall|k: int| 0 <= k < sizes@.len() implies nodes.contains_key(
            (#[trigger] sizes@[k]).0,
        ) && sizes@[k].1 == (
            nodes[sizes@[k].0].node_rect().2,
            nodes[sizes@[k].0].node_rect().3,
        ) by {
            assert(nodes.contains_key(*entries[k].0));
            assert(nodes[*entries[k].0] == *entries[k].1);
        }
    }
    sizes
}

/// Lays out the nodes of the cache, with edges given between pins.
///
/// The edges become edges between nodes as [`node_edges_from_pins`] makes
/// them, the sizes are those of the cache's rectangles, and the rest is
/// [`sugiyama_layout`]. With an empty cache `layering` is not called.
pub fn sugiyama_layout_from_cache<N: NodeGeometry<S>, S: Copy, C: Copy, F>(
    cache: &GeometryCache<N, S>,
    edges: &[(i32, i32)],
    direction: Direction,
    layering: F,
) -> (positions: Vec<NodePosition<C>>) where
    F: FnOnce(&LayoutGraph<S>) -> Vec<(Vec<(usize, (C, C))>, C, C)>,

    requires
        forall|graph: &LayoutGraph<S>| graph.well_formed() ==> layering.requires((graph,)),
    ensures
        cache.node_rects@.len() == 0 ==> positions@ == Seq::<NodePosition<C>>::empty(),
        cache.node_rects@.len() > 0 ==> exists|
            sizes: Seq<(i32, (S, S))>,
            graph: LayoutGraph<S>,
            answer: Vec<(Vec<(usize, (C, C))>, C, C)>,
        |
            {
                &&& lists_node_sizes(sizes, cache.node_rects@)
                &&& is_prepared(graph, node_edges(cache.pin_positions@, edges@), sizes, direction)
                &&& layering.ensures((&graph,), answer)
                &&& positions@ == all_positions(graph.ids@, direction, answer@)
            },
{
    let node_edges = node_edges_from_pins(cache, edges);
    let node_sizes = node_sizes_from_cache(cache);
    proof {
        let ids = entry_ids(node_sizes@);
        ids.unique_seq_to_set();
        assert(ids.len() == node_sizes@.len());
        assert(cache.node_rects@.dom().len() == cache.node_rects@.len());
    }
    sugiyama_layout(node_edges.as_slice(), node_sizes.as_slice(), direction, layering)
}

/// `distinct_ids` keeps exactly the ids that occur, each once.
pub proof fn lemma_distinct_ids_holds_all(ids: Seq<i32>)
    ensures
        distinct_ids(ids).no_duplicates(),
        forall|id: i32| distinct_ids(ids).contains(id) <==> ids.contains(id),
    decreases ids.len(),
{
    if ids.len() > 0 {
        let front = ids.drop_last();
        lemma_distinct_ids_holds_all(front);
        let kept = distinct_ids(front);
        assert forall|id: i32| distinct_ids(ids).contains(id) <==> ids.contains(id) by {
            if ids.contains(id) {
                let k = choose|k: int| 0 <= k < ids.len() && #[trigger] ids[k] == id;
                if k < front.len() {
                    assert(front[k] == id);
                    assert(front.contains(id));
                    assert(kept.contains(id));
                    if !kept.contains(ids.last()) {
                        let at = choose|at: int| 0 <= at < kept.len() && #[trigger] kept[at] == id;
                        assert(kept.push(ids.last())[at] == id);
                    }
                } else {
                    if !kept.contains(ids.last()) {
                        assert(kept.push(ids.last())[kept.len() as int] == id);
                    }
                }
            }
            if distinct_ids(ids).contains(id) {
                let all = distinct_ids(ids);
                let at = choose|at: int| 0 <= at < all.len() && #[trigger] all[at] == id;
                if at < kept.len() {
                    assert(kept[at] == id);
                    assert(front.contains(id));
                    let k = choose|k: int| 0 <= k < front.len() && #[trigger] front[k] == id;
                    assert(ids[k] == id);
                } else {
                    assert(ids[ids.len() - 1] == id);
                }
            }
        }
    }
}

/// Numbering is stable: an id that occurs among the first entries keeps its
/// number when more entries follow.
pub proof fn lemma_distinct_ids_prefix(ids: Seq<i32>, shorter: int)
    requires
        0 <= shorter <= ids.len(),
    ensures
        distinct_ids(ids.take(shorter)).is_prefix_of(distinct_ids(ids)),
    decreases ids.len() - shorter,
{
    if shorter == ids.len() {
        assert(ids.take(shorter) =~= ids);
    } else {
        lemma_distinct_ids_prefix(ids.drop_last(), shorter);
        assert(ids.drop_last().take(shorter) =~= ids.take(shorter));
    }
}

/// There are no more than 2^32 different ids.
proof fn lemma_distinct_i32_bound(ids: Seq<i32>)
    requires
        ids.no_duplicates(),
    ensures
        ids.len() <= 0x1_0000_0000,
{
    let all = vstd::set_lib::set_int_range(-0x8000_0000, 0x8000_0000);
    let narrow = |i: int| i as i32;
    let image = all.map(narrow);
    vstd::set_lib::lemma_int_range(-0x8000_0000, 0x8000_0000);
    vstd::set_lib::lemma_map_size_bound(all, image, narrow);
    assert forall|id: i32| ids.to_set().contains(id) implies image.contains(id) by {
        assert(all.contains(id as int));
        assert(narrow(id as int) == id);
    }
    vstd::set_lib::lemma_len_subset(ids.to_set(), image);
    ids.unique_seq_to_set();
}

/// In a sequence without repeats an element stands at one position only.
proof fn lemma_index_of_unique(ids: Seq<i32>, id: i32, at: int)
    requires
        ids.no_duplicates(),
        0 <= at < ids.len(),
        ids[at] == id,
    ensures
        ids.index_of(id) == at,
{
}

/// One more entry changes the first size of an id only when the id is new
/// with that entry.
proof fn lemma_first_size_step<S>(node_sizes: Seq<(i32, (S, S))>, i: int, id: i32)
    requires
        0 <= i < node_sizes.len(),
    ensures
        entry_ids(node_sizes.take(i)).contains(id) ==> first_size(node_sizes.take(i + 1), id)
            == first_size(node_sizes.take(i), id),
        !entry_ids(node_sizes.take(i)).contains(id) && node_sizes[i].0 == id ==> first_size(
            node_sizes.take(i + 1),
            id,
        ) == node_sizes[i].1,
    decreases i,
{
    let shorter = node_sizes.take(i);
    let longer = node_sizes.take(i + 1);
    if i == 0 {
        assert(!entry_ids(shorter).contains(id));
    } else if node_sizes[0].0 == id {
        assert(entry_ids(shorter)[0] == id);
    } else {
        let rest = node_sizes.drop_first();
        lemma_first_size_step(rest, i - 1, id);
        assert(rest.take(i - 1) =~= shorter.drop_first());
        assert(rest.take(i) =~= longer.drop_first());
        assert(rest[i - 1] == node_sizes[i]);
        let short_ids = entry_ids(shorter);
        let rest_ids = entry_ids(rest.take(i - 1));
        if short_ids.contains(id) {
            let k = choose|k: int| 0 <= k < short_ids.len() && #[trigger] short_ids[k] == id;
            assert(rest_ids[k - 1] == id);
        }
        if rest_ids.contains(id) {
            let k = choose|k: int| 0 <= k < rest_ids.len() && #[trigger] rest_ids[k] == id;
            assert(short_ids[k + 1] == id);
        }
    }
}

/// One more edge extends the mapped edges by its pair of numbers when both
/// of its ends are known, and leaves them as they are when not.
proof fn lemma_mapped_edges_step(ids: Seq<i32>, edges: Seq<(i32, i32)>, j: int)
    requires
        0 <= j < edges.len(),
    ensures
        mapped_edges(ids, edges.take(j + 1)) == if edge_known(ids, edges[j]) {
            mapped_edges(ids, edges.take(j)).push(
                (ids.index_of(edges[j].0) as u32, ids.index_of(edges[j].1) as u32),
            )
        } else {
            mapped_edges(ids, edges.take(j))
        },
{
    let keep = |edge: (i32, i32)| edge_known(ids, edge);
    let number = |edge: (i32, i32)| (ids.index_of(edge.0) as u32, ids.index_of(edge.1) as u32);
    let longer = edges.take(j + 1);
    let shorter = edges.take(j);
    assert(longer.drop_last() =~= shorter);
    assert(longer.last() == edges[j]);
    reveal_with_fuel(Seq::filter, 2);
    if edge_known(ids, edges[j]) {
        assert(longer.filter(keep) == shorter.filter(keep).push(edges[j]));
        assert(shorter.filter(keep).push(edges[j]).map_values(number) =~= shorter.filter(
            keep,
        ).map_values(number).push(number(edges[j])));
    } else {
        assert(longer.filter(keep) == shorter.filter(keep));
    }
}

/// One more entry extends a subgraph's positions by its position when its
/// vertex number is a vertex, and leaves them as they are when not.
proof fn lemma_subgraph_positions_step<C>(
    ids: Seq<i32>,
    direction: Direction,
    layout: Seq<(usize, (C, C))>,
    e: int,
)
    requires
        0 <= e < layout.len(),
    ensures
        subgraph_positions(ids, direction, layout.take(e + 1)) == if layout[e].0 < ids.len() {
            subgraph_positions(ids, direction, layout.take(e)).push(
                placed(ids, direction, layout[e]),
            )
        } else {
            subgraph_positions(ids, direction, layout.take(e))
        },
{
    let keep = |entry: (usize, (C, C))| entry.0 < ids.len();
    let place = |entry: (usize, (C, C))| placed(ids, direction, entry);
    let longer = layout.take(e + 1);
    let shorter = layout.take(e);
    assert(longer.drop_last() =~= shorter);
    assert(longer.last() == layout[e]);
    reveal_with_fuel(Seq::filter, 2);
    if layout[e].0 < ids.len() {
        assert(longer.filter(keep) == shorter.filter(keep).push(layout[e]));
        assert(shorter.filter(keep).push(layout[e]).map_values(place) =~= shorter.filter(
            keep,
        ).map_values(place).push(place(layout[e])));
    } else {
        assert(longer.filter(keep) == shorter.filter(keep));
    }
}

} // verus!
