//! What the engine needs to know of a node, a pin and a link in order to
//! place them, and the plain records that carry it.
//!
//! The engine never computes with a coordinate in this crate: it stores
//! coordinates, hands them back, and decides by ids alone. Every type here is
//! therefore generic over the coordinate type `C`; an application picks its
//! own number type for it.
//!
//! Each trait pairs every method with a spec function of what the method
//! returns. A type that implements a trait states there what it returns;
//! left as they are, the spec functions say nothing.

use vstd::prelude::*;

verus! {

/// The id that a search for a pin answers when no pin is hit.
pub const NO_PIN: i32 = 0;

/// The id that a search for a link answers when no link is hit.
pub const NO_LINK: i32 = -1;

/// The number of straight pieces by which a curve is measured when the
/// caller asks for none.
pub const DEFAULT_HIT_SAMPLES: usize = 20;

/// The number of straight pieces by which a curve is measured: as many as
/// requested, and [`DEFAULT_HIT_SAMPLES`] when none are requested.
pub fn hit_samples(requested: usize) -> (samples: usize)
    ensures
        samples == if requested == 0 {
            DEFAULT_HIT_SAMPLES
        } else {
            requested
        },
        samples > 0,
{
    if requested == 0 {
        DEFAULT_HIT_SAMPLES
    } else {
        requested
    }
}

/// A link, as far as placing it goes: an id and two end points.
pub trait LinkGeometry<C> {
    /// The link's id.
    open spec fn link_id(&self) -> i32 {
        arbitrary()
    }

    /// Where the link starts, as `(x, y)`.
    open spec fn link_start(&self) -> (C, C) {
        arbitrary()
    }

    /// Where the link ends, as `(x, y)`.
    open spec fn link_end(&self) -> (C, C) {
        arbitrary()
    }

    fn id(&self) -> (id: i32)
        ensures
            id == self.link_id(),
    ;

    fn start(&self) -> (point: (C, C))
        ensures
            point == self.link_start(),
    ;

    fn end(&self) -> (point: (C, C))
        ensures
            point == self.link_end(),
    ;
}

/// A pin, as far as placing it goes: an id and a position.
pub trait PinGeometry<C> {
    /// The pin's id.
    open spec fn pin_id(&self) -> i32 {
        arbitrary()
    }

    /// Where the pin is, as `(x, y)`.
    open spec fn pin_position(&self) -> (C, C) {
        arbitrary()
    }

    fn id(&self) -> (id: i32)
        ensures
            id == self.pin_id(),
    ;

    fn position(&self) -> (point: (C, C))
        ensures
            point == self.pin_position(),
    ;
}

/// A node, as far as placing it goes: an id and an axis-aligned rectangle.
pub trait NodeGeometry<C> {
    /// The node's id.
    open spec fn node_id(&self) -> i32 {
        arbitrary()
    }

    /// The node's rectangle, as `(x, y, width, height)`.
    open spec fn node_rect(&self) -> (C, C, C, C) {
        arbitrary()
    }

    fn id(&self) -> (id: i32)
        ensures
            id == self.node_id(),
    ;

    fn rect(&self) -> (rect: (C, C, C, C))
        ensures
            rect == self.node_rect(),
    ;
}

/// A link given by its id and its two end points.
#[derive(Debug, Clone, Copy)]
pub struct SimpleLinkGeometry<C> {
    pub id: i32,
    pub start_x: C,
    pub start_y: C,
    pub end_x: C,
    pub end_y: C,
}

impl<C: Copy> LinkGeometry<C> for SimpleLinkGeometry<C> {
    open spec fn link_id(&self) -> i32 {
        self.id
    }

    open spec fn link_start(&self) -> (C, C) {
        (self.start_x, self.start_y)
    }

    open spec fn link_end(&self) -> (C, C) {
        (self.end_x, self.end_y)
    }

    fn id(&self) -> (id: i32) {
        self.id
    }

    fn start(&self) -> (point: (C, C)) {
        (self.start_x, self.start_y)
    }

    fn end(&self) -> (point: (C, C)) {
        (self.end_x, self.end_y)
    }
}

/// A pin given by its id and its position.
#[derive(Debug, Clone, Copy)]
pub struct SimplePinGeometry<C> {
    pub id: i32,
    pub x: C,
    pub y: C,
}

impl<C: Copy> PinGeometry<C> for SimplePinGeometry<C> {
    open spec fn pin_id(&self) -> i32 {
        self.id
    }

    open spec fn pin_position(&self) -> (C, C) {
        (self.x, self.y)
    }

    fn id(&self) -> (id: i32) {
        self.id
    }

    fn position(&self) -> (point: (C, C)) {
        (self.x, self.y)
    }
}

/// A node given by its id and its rectangle.
#[derive(Debug, Clone, Copy)]
pub struct SimpleNodeGeometry<C> {
    pub id: i32,
    pub x: C,
    pub y: C,
    pub width: C,
    pub height: C,
}

impl<C: Copy> NodeGeometry<C> for SimpleNodeGeometry<C> {
    open spec fn node_id(&self) -> i32 {
        self.id
    }

    open spec fn node_rect(&self) -> (C, C, C, C) {
        (self.x, self.y, self.width, self.height)
    }

    fn id(&self) -> (id: i32) {
        self.id
    }

    fn rect(&self) -> (rect: (C, C, C, C)) {
        (self.x, self.y, self.width, self.height)
    }
}

} // verus!
