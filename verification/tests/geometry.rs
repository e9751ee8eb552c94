use slint_node_editor::geometry::{
    hit_samples, LinkGeometry, NodeGeometry, PinGeometry, SimpleLinkGeometry, SimpleNodeGeometry,
    SimplePinGeometry, DEFAULT_HIT_SAMPLES, NO_LINK, NO_PIN,
};
use slint_node_editor::state::GeometryCache;

#[test]
fn test_simple_link_geometry_trait() {
    let link = SimpleLinkGeometry {
        id: 42,
        start_x: 10.0,
        start_y: 20.0,
        end_x: 30.0,
        end_y: 40.0,
    };

    assert_eq!(link.id(), 42);
    assert_eq!(link.start(), (10.0, 20.0));
    assert_eq!(link.end(), (30.0, 40.0));
}

#[test]
fn test_simple_pin_geometry_trait() {
    let pin = SimplePinGeometry {
        id: 1001,
        x: 50.0,
        y: 75.0,
    };

    assert_eq!(pin.id(), 1001);
    assert_eq!(pin.position(), (50.0, 75.0));
}

#[test]
fn test_simple_node_geometry_trait() {
    let node = SimpleNodeGeometry {
        id: 1,
        x: 10.0,
        y: 20.0,
        width: 100.0,
        height: 80.0,
    };

    assert_eq!(node.id(), 1);
    assert_eq!(node.rect(), (10.0, 20.0, 100.0, 80.0));
}

#[test]
fn no_samples_requested_means_the_default() {
    assert_eq!(DEFAULT_HIT_SAMPLES, 20);
    assert_eq!(hit_samples(0), 20);
    assert_eq!(hit_samples(1), 1);
    assert_eq!(hit_samples(20), 20);
    assert_eq!(hit_samples(usize::MAX), usize::MAX);
}

#[test]
fn sentinels_for_nothing_hit() {
    assert_eq!(NO_PIN, 0);
    assert_eq!(NO_LINK, -1);
}

/// A node record of an application's own, with more than a rectangle.
#[derive(Clone, Copy)]
struct CollapsibleNode {
    id: i32,
    bounds: (f32, f32, f32, f32),
    collapsed: bool,
}

impl NodeGeometry<f32> for CollapsibleNode {
    fn id(&self) -> i32 {
        self.id
    }
    fn rect(&self) -> (f32, f32, f32, f32) {
        self.bounds
    }
}

#[test]
fn cache_takes_an_applications_own_node_record() {
    let mut cache: GeometryCache<CollapsibleNode, f32> = GeometryCache::new();
    cache.update_node(
        1,
        CollapsibleNode {
            id: 1,
            bounds: (10.0, 20.0, 100.0, 50.0),
            collapsed: false,
        },
    );

    let node = cache.node_rects.get(&1).unwrap();
    assert_eq!(node.rect(), (10.0, 20.0, 100.0, 50.0));
    assert!(!node.collapsed);
}

#[test]
fn end_to_end_link_between_two_nodes() {
    let mut cache: GeometryCache<SimpleNodeGeometry<f32>, f32> = GeometryCache::new();
    cache.handle_node_rect_report(1, 0.0, 0.0, 100.0, 50.0);
    cache.handle_node_rect_report(2, 200.0, 100.0, 100.0, 50.0);
    cache.handle_pin_report(1001, 1, 2, 100.0, 25.0);
    cache.handle_pin_report(2001, 2, 1, 0.0, 25.0);

    let ((start_node, start), (end_node, end)) =
        cache.resolve_link(1001, 2001).expect("both pins resolve");
    let start_rect = start_node.rect();
    let end_rect = end_node.rect();

    // The link's curve starts at (100, 25) and ends at (200, 125).
    assert_eq!((start_rect.0 + start.rel_x, start_rect.1 + start.rel_y), (100.0, 25.0));
    assert_eq!((end_rect.0 + end.rel_x, end_rect.1 + end.rel_y), (200.0, 125.0));
}
