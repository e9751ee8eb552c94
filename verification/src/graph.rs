//! Links between pins, and the questions about a graph that need no
//! geometry: which links touch a node, which of two pins is the output, and
//! whether a link is already there.
//!
//! A link is anything that implements [`LinkModel`]. The engine never decides
//! which end of a link is its source: where that matters, the caller names
//! the pin kind that counts as an output.

use crate::state::{pin_owner, GeometryCache, StoredPin};
use vstd::prelude::*;

verus! {

/// A colour as four channels of eight bits.
#[derive(Clone, Copy, Debug, PartialEq, Eq, Structural)]
pub struct Color {
    pub red: u8,
    pub green: u8,
    pub blue: u8,
    pub alpha: u8,
}

impl Color {
    /// An opaque colour from its red, green and blue channels.
    pub fn from_rgb_u8(red: u8, green: u8, blue: u8) -> (color: Self)
        ensures
            color == (Color { red, green, blue, alpha: 255 }),
    {
        Color { red, green, blue, alpha: 255 }
    }

    /// A colour from its alpha, red, green and blue channels.
    pub fn from_argb_u8(alpha: u8, red: u8, green: u8, blue: u8) -> (color: Self)
        ensures
            color == (Color { red, green, blue, alpha }),
    {
        Color { red, green, blue, alpha }
    }
}

/// Opaque white, the colour of a link that names none.
pub open spec fn white() -> Color {
    Color { red: 255, green: 255, blue: 255, alpha: 255 }
}

/// A link between two pins.
///
/// The spec functions say what the link is; the methods return it. A type
/// that implements the trait says in the spec functions what its methods
/// return; left as they are, they say nothing.
pub trait LinkModel {
    /// The link's id.
    open spec fn link_id(&self) -> i32 {
        arbitrary()
    }

    /// The pin at which the link starts.
    open spec fn link_start_pin(&self) -> i32 {
        arbitrary()
    }

    /// The pin at which the link ends.
    open spec fn link_end_pin(&self) -> i32 {
        arbitrary()
    }

    fn id(&self) -> (id: i32)
        ensures
            id == self.link_id(),
    ;

    fn start_pin_id(&self) -> (pin: i32)
        ensures
            pin == self.link_start_pin(),
    ;

    fn end_pin_id(&self) -> (pin: i32)
        ensures
            pin == self.link_end_pin(),
    ;

    /// The colour in which the link is drawn: white, unless the link has a
    /// colour of its own.
    fn color(&self) -> (color: Color)
        default_ensures
            color == white(),
    {
        Color::from_rgb_u8(255, 255, 255)
    }
}

/// A link that is its id, its two pins and its colour.
#[derive(Clone, Copy, Debug)]
pub struct SimpleLink {
    pub id: i32,
    pub start_pin_id: i32,
    pub end_pin_id: i32,
    pub color: Color,
}

impl SimpleLink {
    /// A link from `start_pin_id` to `end_pin_id`, drawn in `color`.
    pub fn new(id: i32, start_pin_id: i32, end_pin_id: i32, color: Color) -> (link: Self)
        ensures
            link == (SimpleLink { id, start_pin_id, end_pin_id, color }),
    {
        SimpleLink { id, start_pin_id, end_pin_id, color }
    }

    /// A link from `start_pin_id` to `end_pin_id`, drawn in white.
    pub fn with_default_color(id: i32, start_pin_id: i32, end_pin_id: i32) -> (link: Self)
        ensures
            link == (SimpleLink { id, start_pin_id, end_pin_id, color: white() }),
    {
        SimpleLink::new(id, start_pin_id, end_pin_id, Color::from_rgb_u8(255, 255, 255))
    }
}

impl LinkModel for SimpleLink {
    open spec fn link_id(&self) -> i32 {
        self.id
    }

    open spec fn link_start_pin(&self) -> i32 {
        self.start_pin_id
    }

    open spec fn link_end_pin(&self) -> i32 {
        self.end_pin_id
    }

    fn id(&self) -> (id: i32) {
        self.id
    }

    fn start_pin_id(&self) -> (pin: i32) {
        self.start_pin_id
    }

    fn end_pin_id(&self) -> (pin: i32) {
        self.end_pin_id
    }

    fn color(&self) -> (color: Color)
        ensures
            color == self.color,
    {
        self.color
    }
}

/// Whether `link` starts or ends at a pin that `node` owns.
pub open spec fn touches_node<L: LinkModel, C>(
    link: L,
    pins: Map<i32, StoredPin<C>>,
    node: i32,
) -> bool {
    pin_owner(pins, link.link_start_pin()) == Some(node) || pin_owner(pins, link.link_end_pin())
        == Some(node)
}

/// The ids of the links that touch `node`, in the order of `links`.
pub open spec fn links_touching<L: LinkModel, C>(
    links: Seq<L>,
    pins: Map<i32, StoredPin<C>>,
    node: i32,
) -> Seq<i32> {
    links.filter(|link: L| touches_node(link, pins, node)).map_values(|link: L| link.link_id())
}

/// Whether `link` runs from `start_pin` to `end_pin`, in that direction.
pub open spec fn runs_between<L: LinkModel>(link: L, start_pin: i32, end_pin: i32) -> bool {
    link.link_start_pin() == start_pin && link.link_end_pin() == end_pin
}

/// Whether some link in `links` runs from `start_pin` to `end_pin`.
pub open spec fn has_link_between<L: LinkModel>(
    links: Seq<L>,
    start_pin: i32,
    end_pin: i32,
) -> bool {
    exists|i: int| 0 <= i < links.len() && runs_between(#[trigger] links[i], start_pin, end_pin)
}

/// The pair `(pin_a, pin_b)` with the output first, judged by `pin_a` alone.
pub open spec fn normalized_direction<C>(
    pins: Map<i32, StoredPin<C>>,
    pin_a: i32,
    pin_b: i32,
    output_type: i32,
) -> Option<(i32, i32)> {
    if !pins.contains_key(pin_a) {
        None
    } else if pins[pin_a].pin_type == output_type {
        Some((pin_a, pin_b))
    } else {
        Some((pin_b, pin_a))
    }
}

/// Questions about links that the cache's pin table answers.
pub struct GraphLogic;

impl GraphLogic {
    /// The ids of the links that start or end at a pin of `node_id`, in the
    /// order of `links`.
    ///
    /// A link whose pins are unknown to the cache touches no node.
    pub fn find_links_connected_to_node<L: LinkModel, N, C>(
        node_id: i32,
        links: &[L],
        cache: &GeometryCache<N, C>,
    ) -> (ids: Vec<i32>)
        ensures
            ids@ == links_touching(links@, cache.pin_positions@, node_id),
    {
        let mut ids: Vec<i32> = Vec::new();
        let n = links.len();
        let mut i: usize = 0;
        while i < n
            invariant
                n == links.len(),
                i <= n,
                ids@ == links_touching(links@.take(i as int), cache.pin_positions@, node_id),
            decreases n - i,
        {
            let link = &links[i];
            let start_node = cache.pin_node(link.start_pin_id());
            let end_node = cache.pin_node(link.end_pin_id());
            let touches = is_node(start_node, node_id) || is_node(end_node, node_id);
            proof {
                lemma_links_touching_step(links@, cache.pin_positions@, node_id, i as int);
            }
            if touches {
                ids.push(link.id());
            }
            i += 1;
        }
        assert(links@.take(n as int) =~= links@);
        ids
    }

    /// Orders two pins so that the output comes first.
    ///
    /// Only `pin_a` is looked up: when it is unknown the answer is `None`;
    /// when its kind is `output_type` the pair stays as given; otherwise it
    /// is swapped. Whether exactly one of the two is an output is not
    /// checked here.
    pub fn normalize_link_direction<N, C>(
        pin_a: i32,
        pin_b: i32,
        cache: &GeometryCache<N, C>,
        output_type: i32,
    ) -> (ordered: Option<(i32, i32)>)
        ensures
            ordered == normalized_direction(cache.pin_positions@, pin_a, pin_b, output_type),
    {
        match cache.pin_positions.get(&pin_a) {
            Some(pos_a) => {
                if pos_a.pin_type == output_type {
                    Some((pin_a, pin_b))
                } else {
                    Some((pin_b, pin_a))
                }
            },
            None => None,
        }
    }

    /// Whether `links` already holds a link from `start_pin` to `end_pin`.
    ///
    /// A link in the opposite direction does not count.
    pub fn duplicate_link_exists<L: LinkModel>(start_pin: i32, end_pin: i32, links: &[L]) -> (found:
        bool)
        ensures
            found == has_link_between(links@, start_pin, end_pin),
    {
        let n = links.len();
        let mut i: usize = 0;
        while i < n
            invariant
                n == links.len(),
                i <= n,
                forall|j: int|
                    0 <= j < i ==> !runs_between(#[trigger] links@[j], start_pin, end_pin),
            decreases n - i,
        {
            let link = &links[i];
            if link.start_pin_id() == start_pin && link.end_pin_id() == end_pin {
                return true;
            }
            i += 1;
        }
        false
    }

    /// The first of `nodes` for which `id_of` gives `id`, with its position.
    ///
    /// `id_of` is asked for one node after the other, and no more once it
    /// has given `id`.
    pub fn find_node_by_id<T, F: Fn(&T) -> i32>(nodes: &[T], id: i32, id_of: F) -> (found: Option<
        (usize, &T),
    >)
        requires
            forall|node: &T| id_of.requires((node,)),
        ensures
            match found {
                Some((at, node)) => {
                    &&& at < nodes@.len()
                    &&& *node == nodes@[at as int]
                    &&& id_of.ensures((&nodes@[at as int],), id)
                    &&& forall|j: int|
                        0 <= j < at ==> gave_other_id(id_of, #[trigger] nodes@[j], id)
                },
                None => forall|j: int|
                    0 <= j < nodes@.len() ==> gave_other_id(id_of, #[trigger] nodes@[j], id),
            },
    {
        let n = nodes.len();
        let mut i: usize = 0;
        while i < n
            invariant
                n == nodes.len(),
                i <= n,
                forall|node: &T| id_of.requires((node,)),
                forall|j: int| 0 <= j < i ==> gave_other_id(id_of, #[trigger] nodes@[j], id),
            decreases n - i,
        {
            let node = &nodes[i];
            let given = id_of(node);
            if given == id {
                return Some((i, node));
            }
            assert(gave_other_id(id_of, nodes@[i as int], id)) by {
                assert(id_of.ensures((&nodes@[i as int],), given) && given != id);
            }
            i += 1;
        }
        None
    }
}

/// Whether `id_of` may give an id other than `id` for `node`.
pub open spec fn gave_other_id<T, F: Fn(&T) -> i32>(id_of: F, node: T, id: i32) -> bool {
    exists|other: i32| other != id && id_of.ensures((&node,), other)
}

/// Whether `owner` is the node `node`.
fn is_node(owner: Option<i32>, node: i32) -> (same: bool)
    ensures
        same == (owner == Some(node)),
{
    match owner {
        Some(id) => id == node,
        None => false,
    }
}

/// One more link extends the touching ids by its id when it touches the
/// node, and leaves them as they are when it does not.
proof fn lemma_links_touching_step<L: LinkModel, C>(
    links: Seq<L>,
    pins: Map<i32, StoredPin<C>>,
    node: i32,
    i: int,
)
    requires
        0 <= i < links.len(),
    ensures
        links_touching(links.take(i + 1), pins, node) == if touches_node(links[i], pins, node) {
            links_touching(links.take(i), pins, node).push(links[i].link_id())
        } else {
            links_touching(links.take(i), pins, node)
        },
{
    let keep = |link: L| touches_node(link, pins, node);
    let id_of = |link: L| link.link_id();
    let longer = links.take(i + 1);
    let shorter = links.take(i);
    assert(longer.drop_last() =~= shorter);
    assert(longer.last() == links[i]);
    reveal_with_fuel(Seq::filter, 2);
    if touches_node(links[i], pins, node) {
        assert(longer.filter(keep) == shorter.filter(keep).push(links[i]));
        assert(shorter.filter(keep).push(links[i]).map_values(id_of) =~= shorter.filter(
            keep,
        ).map_values(id_of).push(links[i].link_id()));
    } else {
        assert(longer.filter(keep) == shorter.filter(keep));
    }
}

} // verus!
