use slint_node_editor::geometry::{NodeGeometry, SimpleNodeGeometry, SimplePinGeometry};
use slint_node_editor::geometry::{LinkGeometry, PinGeometry, SimpleLinkGeometry};
use slint_node_editor::state::{GeometryCache, StoredPin};

type Cache = GeometryCache<SimpleNodeGeometry<f32>, f32>;

fn setup_test_cache() -> Cache {
    let mut cache = GeometryCache::new();

    cache.update_node_rect(1, 0.0, 0.0, 100.0, 50.0);
    cache.update_node_rect(2, 200.0, 100.0, 100.0, 50.0);

    cache.handle_pin_report(1001, 1, 2, 100.0, 25.0);
    cache.handle_pin_report(2001, 2, 1, 0.0, 25.0);

    cache
}

/// The pins that resolve, each at its node's origin plus its own offset.
fn absolute_pins(cache: &Cache) -> Vec<SimplePinGeometry<f32>> {
    cache
        .resolved_pins()
        .into_iter()
        .map(|(id, (node, pin))| {
            let rect = node.rect();
            SimplePinGeometry {
                id,
                x: rect.0 + pin.rel_x,
                y: rect.1 + pin.rel_y,
            }
        })
        .collect()
}

/// The links that resolve, each end at its node's origin plus its pin's offset.
fn absolute_links(cache: &Cache, links: &[(i32, i32, i32)]) -> Vec<SimpleLinkGeometry<f32>> {
    cache
        .resolved_links(links)
        .into_iter()
        .map(|(id, (start_node, start), (end_node, end))| {
            let start_rect = start_node.rect();
            let end_rect = end_node.rect();
            SimpleLinkGeometry {
                id,
                start_x: start_rect.0 + start.rel_x,
                start_y: start_rect.1 + start.rel_y,
                end_x: end_rect.0 + end.rel_x,
                end_y: end_rect.1 + end.rel_y,
            }
        })
        .collect()
}

#[test]
fn test_new_cache_is_empty() {
    let cache: Cache = GeometryCache::new();
    assert!(cache.node_rects.is_empty());
    assert!(cache.pin_positions.is_empty());
}

#[test]
fn test_default_cache_is_empty() {
    let cache: Cache = GeometryCache::default();
    assert!(cache.node_rects.is_empty());
    assert!(cache.pin_positions.is_empty());
}

#[test]
fn test_handle_pin_report_inserts_pin() {
    let mut cache: Cache = GeometryCache::new();
    cache.handle_pin_report(1001, 1, 2, 50.0, 25.0);

    let pin = cache.pin_positions.get(&1001).expect("Pin should exist");
    assert_eq!(pin.node_id, 1);
    assert_eq!(pin.pin_type, 2);
    assert_eq!(pin.rel_x, 50.0);
    assert_eq!(pin.rel_y, 25.0);
}

#[test]
fn test_handle_pin_report_overwrites_existing() {
    let mut cache: Cache = GeometryCache::new();
    cache.handle_pin_report(1001, 1, 2, 50.0, 25.0);
    cache.handle_pin_report(1001, 1, 2, 100.0, 30.0);

    let pin = cache.pin_positions.get(&1001).expect("Pin should exist");
    assert_eq!(pin.rel_x, 100.0);
    assert_eq!(pin.rel_y, 30.0);
}

#[test]
fn test_handle_pin_report_negative_coordinates() {
    let mut cache: Cache = GeometryCache::new();
    cache.handle_pin_report(1001, 1, 2, -10.0, -20.0);

    let pin = cache.pin_positions.get(&1001).expect("Pin should exist");
    assert_eq!(pin.rel_x, -10.0);
    assert_eq!(pin.rel_y, -20.0);
}

#[test]
fn test_update_node_rect_inserts_node() {
    let mut cache: Cache = GeometryCache::new();
    cache.update_node_rect(1, 10.0, 20.0, 100.0, 50.0);

    let node = cache.node_rects.get(&1).expect("Node should exist");
    assert_eq!(node.id, 1);
    assert_eq!(node.x, 10.0);
    assert_eq!(node.y, 20.0);
    assert_eq!(node.width, 100.0);
    assert_eq!(node.height, 50.0);
}

#[test]
fn test_update_node_rect_overwrites_existing() {
    let mut cache: Cache = GeometryCache::new();
    cache.update_node_rect(1, 10.0, 20.0, 100.0, 50.0);
    cache.update_node_rect(1, 50.0, 60.0, 150.0, 80.0);

    let node = cache.node_rects.get(&1).expect("Node should exist");
    assert_eq!(node.x, 50.0);
    assert_eq!(node.y, 60.0);
    assert_eq!(node.width, 150.0);
    assert_eq!(node.height, 80.0);
}

#[test]
fn test_update_node_rect_negative_coordinates() {
    let mut cache: Cache = GeometryCache::new();
    cache.update_node_rect(1, -100.0, -200.0, 100.0, 50.0);

    let node = cache.node_rects.get(&1).expect("Node should exist");
    assert_eq!(node.x, -100.0);
    assert_eq!(node.y, -200.0);
}

#[test]
fn test_get_absolute_pins_returns_absolute_positions() {
    let cache = setup_test_cache();
    let pins = absolute_pins(&cache);

    let pin1 = pins.iter().find(|p| p.id == 1001).expect("Pin 1001 should exist");
    assert_eq!(pin1.x, 100.0);
    assert_eq!(pin1.y, 25.0);

    let pin2 = pins.iter().find(|p| p.id == 2001).expect("Pin 2001 should exist");
    assert_eq!(pin2.x, 200.0);
    assert_eq!(pin2.y, 125.0);
}

#[test]
fn test_get_absolute_pins_skips_orphan_pins() {
    let mut cache = setup_test_cache();
    cache.handle_pin_report(9999, 999, 1, 50.0, 25.0);

    let pins = absolute_pins(&cache);

    assert_eq!(pins.len(), 2);
    assert!(!pins.iter().any(|p| p.id == 9999));
}

#[test]
fn test_get_absolute_pins_empty_cache() {
    let cache: Cache = GeometryCache::new();
    let pins = absolute_pins(&cache);
    assert!(pins.is_empty());
}

#[test]
fn test_get_absolute_pins_node_at_negative_coords() {
    let mut cache: Cache = GeometryCache::new();
    cache.update_node_rect(1, -100.0, -50.0, 100.0, 50.0);
    cache.handle_pin_report(1001, 1, 2, 50.0, 25.0);

    let pins = absolute_pins(&cache);
    let pin = pins.iter().find(|p| p.id == 1001).expect("Pin should exist");
    assert_eq!(pin.x, -50.0);
    assert_eq!(pin.y, -25.0);
}

#[test]
fn test_get_absolute_links_returns_absolute_positions() {
    let cache = setup_test_cache();
    let links_data = vec![(1, 1001, 2001)];
    let links = absolute_links(&cache, &links_data);

    assert_eq!(links.len(), 1);
    let link = &links[0];
    assert_eq!(link.id, 1);
    assert_eq!(link.start_x, 100.0);
    assert_eq!(link.start_y, 25.0);
    assert_eq!(link.end_x, 200.0);
    assert_eq!(link.end_y, 125.0);
}

#[test]
fn test_get_absolute_links_skips_missing_start_pin() {
    let cache = setup_test_cache();
    let links_data = vec![(1, 9999, 2001)];
    let links = absolute_links(&cache, &links_data);

    assert!(links.is_empty());
}

#[test]
fn test_get_absolute_links_skips_missing_end_pin() {
    let cache = setup_test_cache();
    let links_data = vec![(1, 1001, 9999)];
    let links = absolute_links(&cache, &links_data);

    assert!(links.is_empty());
}

#[test]
fn test_get_absolute_links_skips_missing_start_node() {
    let mut cache = setup_test_cache();
    cache.pin_positions.insert(
        3001,
        StoredPin {
            node_id: 999,
            pin_type: 1,
            rel_x: 0.0,
            rel_y: 25.0,
        },
    );

    let links_data = vec![(1, 3001, 2001)];
    let links = absolute_links(&cache, &links_data);

    assert!(links.is_empty());
}

#[test]
fn test_get_absolute_links_empty_input() {
    let cache = setup_test_cache();
    let links_data: Vec<(i32, i32, i32)> = vec![];
    let links = absolute_links(&cache, &links_data);

    assert!(links.is_empty());
}

#[test]
fn test_get_absolute_links_multiple_links() {
    let mut cache = setup_test_cache();
    cache.handle_pin_report(2002, 2, 1, 0.0, 40.0);

    let links_data = vec![(1, 1001, 2001), (2, 1001, 2002)];
    let links = absolute_links(&cache, &links_data);

    assert_eq!(links.len(), 2);
}

#[test]
fn many_reports_of_one_id_leave_one_entry() {
    let mut cache: Cache = GeometryCache::new();
    for step in 0..25 {
        cache.handle_node_rect_report(7, step as f32, 0.0, 10.0, 10.0);
        cache.handle_pin_report(70, 7, 1, step as f32, 1.0);
    }
    assert_eq!(cache.node_rects.len(), 1);
    assert_eq!(cache.pin_positions.len(), 1);
    assert_eq!(cache.node_rects[&7].x, 24.0);
    assert_eq!(cache.pin_positions[&70].rel_x, 24.0);
}

#[test]
fn handle_node_rect_report_is_update_node_rect() {
    let mut reported: Cache = GeometryCache::new();
    reported.handle_node_rect_report(3, 1.0, 2.0, 3.0, 4.0);
    let node = reported.node_rects[&3];
    assert_eq!((node.id, node.x, node.y, node.width, node.height), (3, 1.0, 2.0, 3.0, 4.0));
    assert!(reported.pin_positions.is_empty());
}

#[test]
fn pin_report_does_not_ask_for_the_node() {
    let mut cache: Cache = GeometryCache::new();
    cache.handle_pin_report(5, 404, 9, 1.0, 2.0);
    assert_eq!(cache.pin_positions.len(), 1);
    assert!(cache.node_rects.is_empty());
    assert_eq!(cache.pin_node(5), Some(404));
    assert_eq!(cache.pin_node(6), None);
    assert!(cache.resolve_pin(5).is_none());

    cache.update_node_rect(404, 10.0, 20.0, 30.0, 40.0);
    let (node, pin) = cache.resolve_pin(5).expect("pin and node are known now");
    assert_eq!(node.rect(), (10.0, 20.0, 30.0, 40.0));
    assert_eq!((pin.node_id, pin.pin_type, pin.rel_x, pin.rel_y), (404, 9, 1.0, 2.0));
}

#[test]
fn resolve_link_needs_both_pins_and_both_nodes() {
    let mut cache = setup_test_cache();
    cache.handle_pin_report(3001, 999, 1, 0.0, 0.0);

    let ((start_node, start), (end_node, end)) =
        cache.resolve_link(1001, 2001).expect("both ends resolve");
    assert_eq!(start_node.id, 1);
    assert_eq!(start.rel_x, 100.0);
    assert_eq!(end_node.id, 2);
    assert_eq!(end.rel_y, 25.0);

    // A link from a pin to itself resolves like any other.
    assert!(cache.resolve_link(1001, 1001).is_some());

    assert!(cache.resolve_link(9999, 2001).is_none());
    assert!(cache.resolve_link(1001, 9999).is_none());
    assert!(cache.resolve_link(3001, 2001).is_none());
    assert!(cache.resolve_link(1001, 3001).is_none());
}

#[test]
fn resolved_links_keep_the_order_of_the_input() {
    let mut cache = setup_test_cache();
    cache.handle_pin_report(2002, 2, 1, 0.0, 40.0);
    let links = vec![(9, 2002, 1001), (4, 1001, 777), (9, 1001, 2001), (1, 1001, 2002)];
    let ids: Vec<i32> = cache.resolved_links(&links).into_iter().map(|l| l.0).collect();
    assert_eq!(ids, vec![9, 9, 1]);
}

#[test]
fn clear_forgets_nodes_and_pins() {
    let mut cache = setup_test_cache();
    cache.clear();
    assert!(cache.node_rects.is_empty());
    assert!(cache.pin_positions.is_empty());
    assert!(cache.resolved_pins().is_empty());
}

#[test]
fn update_node_takes_any_node_record() {
    let mut cache: GeometryCache<(i32, f32), f32> = GeometryCache::new();
    cache.update_node(1, (1, 2.5));
    cache.update_node(1, (1, 3.5));
    cache.update_node(2, (2, 4.5));
    assert_eq!(cache.node_rects.len(), 2);
    assert_eq!(cache.node_rects[&1], (1, 3.5));
}

#[test]
fn simple_geometry_returns_its_fields() {
    let node = SimpleNodeGeometry { id: 4, x: 1.0, y: 2.0, width: 3.0, height: 4.0 };
    assert_eq!(NodeGeometry::id(&node), 4);
    assert_eq!(node.rect(), (1.0, 2.0, 3.0, 4.0));

    let pin = SimplePinGeometry { id: 5, x: 6.0, y: 7.0 };
    assert_eq!(PinGeometry::id(&pin), 5);
    assert_eq!(pin.position(), (6.0, 7.0));

    let link = SimpleLinkGeometry { id: 8, start_x: 1.0, start_y: 2.0, end_x: 3.0, end_y: 4.0 };
    assert_eq!(LinkGeometry::id(&link), 8);
    assert_eq!(link.start(), (1.0, 2.0));
    assert_eq!(link.end(), (3.0, 4.0));
}
