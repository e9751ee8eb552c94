//! The links of a graph, kept in the order in which they were added.
//!
//! A [`LinkManager`] owns the links and nothing else. What depends on where
//! the pins are is asked with the cache at hand: [`LinkManager::map_resolved`]
//! walks the links whose two pins resolve and lets the caller make of each
//! what it draws.

use crate::graph::LinkModel;
use crate::state::{link_resolves, resolved_link, GeometryCache, StoredPin};
use vstd::prelude::*;

verus! {

/// The links of a graph, in the order in which they were added.
pub struct LinkManager<L> {
    links: Vec<L>,
}

impl<L> View for LinkManager<L> {
    type V = Seq<L>;

    closed spec fn view(&self) -> Seq<L> {
        self.links@
    }
}

/// The id and the two pins of `link`, as `(id, start_pin, end_pin)`.
pub open spec fn endpoints_of<L: LinkModel>(link: L) -> (i32, i32, i32) {
    (link.link_id(), link.link_start_pin(), link.link_end_pin())
}

/// The ids of `links`, in order.
pub open spec fn link_ids<L: LinkModel>(links: Seq<L>) -> Seq<i32> {
    links.map_values(|link: L| link.link_id())
}

/// `links` without those whose id is `id`.
pub open spec fn without_id<L: LinkModel>(links: Seq<L>, id: i32) -> Seq<L> {
    links.filter(|link: L| link.link_id() != id)
}

/// The links whose two pins resolve, in order.
pub open spec fn drawable_links<L: LinkModel, N, C>(
    links: Seq<L>,
    nodes: Map<i32, N>,
    pins: Map<i32, StoredPin<C>>,
) -> Seq<L> {
    links.filter(|link: L| link_resolves(nodes, pins, endpoints_of(link)))
}

impl<L> Default for LinkManager<L> {
    fn default() -> (manager: Self)
        ensures
            manager@ == Seq::<L>::empty(),
    {
        LinkManager { links: Vec::new() }
    }
}

impl<L: LinkModel> LinkManager<L> {
    /// A manager without links.
    pub fn new() -> (manager: Self)
        ensures
            manager@ == Seq::<L>::empty(),
    {
        LinkManager { links: Vec::new() }
    }

    /// Adds `link` behind the links that are there. Ids are not compared: a
    /// link whose id is taken is added all the same.
    pub fn add(&mut self, link: L)
        ensures
            final(self)@ == old(self)@.push(link),
    {
        self.links.push(link);
    }

    /// Removes every link whose id is `id`; the others keep their order.
    /// Returns whether a link was removed.
    pub fn remove(&mut self, id: i32) -> (removed: bool)
        ensures
            final(self)@ == without_id(old(self)@, id),
            removed == exists|i: int|
                0 <= i < old(self)@.len() && (#[trigger] old(self)@[i]).link_id() == id,
    {
        let ghost before = self.links@;
        let ghost mut seen: int = 0;
        let mut removed = false;
        let mut i: usize = 0;
        proof {
            assert(before.take(0) =~= Seq::<L>::empty());
            assert(before.skip(0) =~= before);
            assert(without_id(Seq::<L>::empty(), id) =~= Seq::<L>::empty());
        }
        while i < self.links.len()
            invariant
                0 <= seen <= before.len(),
                i == without_id(before.take(seen), id).len(),
                self.links@ == without_id(before.take(seen), id) + before.skip(seen),
                removed == exists|k: int| 0 <= k < seen && (#[trigger] before[k]).link_id() == id,
            decreases before.len() - seen,
        {
            proof {
                lemma_without_id_step(before, id, seen);
                assert(self.links@[i as int] == before.skip(seen)[0]);
                assert(before.skip(seen).drop_first() =~= before.skip(seen + 1));
            }
            if self.links[i].id() == id {
                self.links.remove(i);
                removed = true;
                proof {
                    assert(self.links@ =~= without_id(before.take(seen + 1), id) + before.skip(
                        seen + 1,
                    ));
                }
            } else {
                proof {
                    assert(self.links@ =~= without_id(before.take(seen + 1), id) + before.skip(
                        seen + 1,
                    ));
                }
                i += 1;
            }
            proof {
                seen = seen + 1;
            }
        }
        proof {
            assert(seen == before.len()) by {
                if seen < before.len() {
                    assert(self.links@.len() == i + before.skip(seen).len());
                }
            }
            assert(before.take(seen) =~= before);
            assert(before.skip(seen) =~= Seq::<L>::empty());
            assert(self.links@ =~= without_id(before, id));
            if removed {
                let k = choose|k: int| 0 <= k < seen && (#[trigger] before[k]).link_id() == id;
                assert(old(self)@[k].link_id() == id);
            }
        }
        removed
    }

    /// Removes all links.
    pub fn clear(&mut self)
        ensures
            final(self)@ == Seq::<L>::empty(),
    {
        self.links.clear();
    }

    /// The number of links.
    pub fn len(&self) -> (n: usize)
        ensures
            n == self@.len(),
    {
        self.links.len()
    }

    /// Whether there is no link.
    pub fn is_empty(&self) -> (empty: bool)
        ensures
            empty == (self@.len() == 0),
    {
        self.links.len() == 0
    }

    /// The links, in the order in which they were added.
    pub fn links(&self) -> (links: &[L])
        ensures
            links@ == self@,
    {
        self.links.as_slice()
    }

    /// The links, for the caller to change in place. What the caller leaves
    /// in the vector is what the manager holds afterwards.
    pub fn links_mut(&mut self) -> (links: &mut Vec<L>)
        ensures
            links@ == old(self)@,
            final(self)@ == final(links)@,
    {
        &mut self.links
    }

    /// The ids of the links, in the order in which they were added.
    pub fn ids(&self) -> (ids: Vec<i32>)
        ensures
            ids@ == link_ids(self@),
    {
        let mut ids: Vec<i32> = Vec::new();
        let n = self.links.len();
        let mut i: usize = 0;
        while i < n
            invariant
                n == self.links.len(),
                i <= n,
                ids@ == link_ids(self.links@.take(i as int)),
            decreases n - i,
        {
            ids.push(self.links[i].id());
            assert(ids@ =~= link_ids(self.links@.take(i + 1)));
            i += 1;
        }
        assert(self.links@.take(n as int) =~= self.links@);
        ids
    }

    /// The first link whose id is `id`.
    pub fn find(&self, id: i32) -> (found: Option<&L>)
        ensures
            match found {
                Some(link) => exists|i: int|
                    0 <= i < self@.len() && *link == #[trigger] self@[i] && link.link_id() == id
                        && forall|j: int| 0 <= j < i ==> (#[trigger] self@[j]).link_id() != id,
                None => forall|j: int|
                    0 <= j < self@.len() ==> (#[trigger] self@[j]).link_id() != id,
            },
    {
        match self.position(id) {
            Some(i) => Some(&self.links[i]),
            None => None,
        }
    }

    /// The position of the first link whose id is `id`.
    fn position(&self, id: i32) -> (at: Option<usize>)
        ensures
            match at {
                Some(i) => i < self@.len() && self@[i as int].link_id() == id && forall|j: int|
                    0 <= j < i ==> (#[trigger] self@[j]).link_id() != id,
                None => forall|j: int|
                    0 <= j < self@.len() ==> (#[trigger] self@[j]).link_id() != id,
            },
    {
        let n = self.links.len();
        let mut i: usize = 0;
        while i < n
            invariant
                n == self.links.len(),
                i <= n,
                forall|j: int| 0 <= j < i ==> (#[trigger] self.links@[j]).link_id() != id,
            decreases n - i,
        {
            if self.links[i].id() == id {
                return Some(i);
            }
            i += 1;
        }
        None
    }

    /// The first link whose id is `id`, for the caller to change in place.
    /// The other links stay as they are.
    pub fn find_mut(&mut self, id: i32) -> (found: Option<&mut L>)
        ensures
            match found {
                Some(link) => exists|i: int|
                    0 <= i < old(self)@.len() && *link == #[trigger] old(self)@[i]
                        && link.link_id() == id && final(self)@ == old(self)@.update(
                        i,
                        *final(link),
                    ) && forall|j: int| 0 <= j < i ==> (#[trigger] old(self)@[j]).link_id() != id,
                None => final(self)@ == old(self)@ && forall|j: int|
                    0 <= j < old(self)@.len() ==> (#[trigger] old(self)@[j]).link_id() != id,
            },
    {
        match self.position(id) {
            Some(i) => Some(&mut self.links[i]),
            None => None,
        }
    }

    /// What `draw` makes of each link whose two pins resolve, in the order
    /// of the links.
    ///
    /// `draw` is given the link, then what the cache knows of its start and
    /// of its end, each as the node and the pin. A link with a pin that does
    /// not resolve is passed over and `draw` is not called for it.
    pub fn map_resolved<N: Copy, C: Copy, P, F: Fn(&L, (N, StoredPin<C>), (N, StoredPin<C>)) -> P>(
        &self,
        cache: &GeometryCache<N, C>,
        draw: F,
    ) -> (drawn: Vec<P>)
        requires
            forall|link: &L, start: (N, StoredPin<C>), end: (N, StoredPin<C>)|
                draw.requires((link, start, end)),
        ensures
            drawn@.len() == drawable_links(self@, cache.node_rects@, cache.pin_positions@).len(),
            forall|k: int|
                0 <= k < drawn@.len() ==> {
                    let link = drawable_links(self@, cache.node_rects@, cache.pin_positions@)[k];
                    let ends = resolved_link(
                        cache.node_rects@,
                        cache.pin_positions@,
                        endpoints_of(link),
                    );
                    draw.ensures((&link, ends.1, ends.2), #[trigger] drawn@[k])
                },
    {
        let mut drawn: Vec<P> = Vec::new();
        let ghost nodes = cache.node_rects@;
        let ghost pins = cache.pin_positions@;
        let n = self.links.len();
        let mut i: usize = 0;
        proof {
            assert(drawable_links(self.links@.take(0), nodes, pins) =~= Seq::<L>::empty());
        }
        while i < n
            invariant
                n == self.links.len(),
                i <= n,
                nodes == cache.node_rects@,
                pins == cache.pin_positions@,
                forall|link: &L, start: (N, StoredPin<C>), end: (N, StoredPin<C>)|
                    draw.requires((link, start, end)),
                drawn@.len() == drawable_links(self.links@.take(i as int), nodes, pins).len(),
                forall|k: int|
                    0 <= k < drawn@.len() ==> {
                        let link = drawable_links(self.links@.take(i as int), nodes, pins)[k];
                        let ends = resolved_link(nodes, pins, endpoints_of(link));
                        draw.ensures((&link, ends.1, ends.2), #[trigger] drawn@[k])
                    },
            decreases n - i,
        {
            let link = &self.links[i];
            proof {
                lemma_drawable_links_step(self.links@, nodes, pins, i as int);
            }
            match cache.resolve_link(link.start_pin_id(), link.end_pin_id()) {
                Some(((start_node, start), (end_node, end))) => {
                    let picture = draw(link, (*start_node, *start), (*end_node, *end));
                    drawn.push(picture);
                },
                None => {},
            }
            i += 1;
        }
        proof {
            assert(self.links@.take(n as int) =~= self.links@);
        }
        drawn
    }
}

/// One more link extends the kept links by itself when its id is not `id`,
/// and leaves them as they are when it is.
proof fn lemma_without_id_step<L: LinkModel>(links: Seq<L>, id: i32, i: int)
    requires
        0 <= i < links.len(),
    ensures
        without_id(links.take(i + 1), id) == if links[i].link_id() != id {
            without_id(links.take(i), id).push(links[i])
        } else {
            without_id(links.take(i), id)
        },
{
    let longer = links.take(i + 1);
    assert(longer.drop_last() =~= links.take(i));
    assert(longer.last() == links[i]);
    reveal_with_fuel(Seq::filter, 2);
}

/// One more link extends the drawable links by itself when both of its pins
/// resolve, and leaves them as they are when not.
proof fn lemma_drawable_links_step<L: LinkModel, N, C>(
    links: Seq<L>,
    nodes: Map<i32, N>,
    pins: Map<i32, StoredPin<C>>,
    i: int,
)
    requires
        0 <= i < links.len(),
    ensures
        drawable_links(links.take(i + 1), nodes, pins) == if link_resolves(
            nodes,
            pins,
            endpoints_of(links[i]),
        ) {
            drawable_links(links.take(i), nodes, pins).push(links[i])
        } else {
            drawable_links(links.take(i), nodes, pins)
        },
{
    let longer = links.take(i + 1);
    assert(longer.drop_last() =~= links.take(i));
    assert(longer.last() == links[i]);
    reveal_with_fuel(Seq::filter, 2);
}

/// Removing an id leaves no link of that id, keeps every other link, and
/// removing it again changes nothing.
pub proof fn lemma_remove_is_thorough<L: LinkModel>(links: Seq<L>, id: i32)
    ensures
        forall|i: int|
            0 <= i < without_id(links, id).len() ==> (#[trigger] without_id(links, id)[i]).link_id()
                != id,
        forall|i: int|
            0 <= i < links.len() && (#[trigger] links[i]).link_id() != id ==> without_id(
                links,
                id,
            ).contains(links[i]),
        without_id(without_id(links, id), id) == without_id(links, id),
        without_id(links, id).len() <= links.len(),
    decreases links.len(),
{
    reveal_with_fuel(Seq::filter, 2);
    let kept = without_id(links, id);
    if links.len() > 0 {
        let front = links.drop_last();
        let front_kept = without_id(front, id);
        lemma_remove_is_thorough(front, id);
        assert forall|i: int| 0 <= i < links.len() && (#[trigger] links[i]).link_id()
            != id implies kept.contains(links[i]) by {
            if i < front.len() {
                assert(front[i] == links[i]);
                let at = choose|at: int|
                    0 <= at < front_kept.len() && #[trigger] front_kept[at] == front[i];
                assert(kept[at] == links[i]);
            } else {
                assert(kept[kept.len() - 1] == links[i]);
            }
        }
    }
    lemma_without_id_keeps_others(kept, id);
}

/// Removing an id that no link has changes nothing.
proof fn lemma_without_id_keeps_others<L: LinkModel>(links: Seq<L>, id: i32)
    requires
        forall|i: int| 0 <= i < links.len() ==> (#[trigger] links[i]).link_id() != id,
    ensures
        without_id(links, id) == links,
    decreases links.len(),
{
    reveal_with_fuel(Seq::filter, 2);
    if links.len() > 0 {
        lemma_without_id_keeps_others(links.drop_last(), id);
        assert(links.drop_last().push(links.last()) =~= links);
    }
}

} // verus!
