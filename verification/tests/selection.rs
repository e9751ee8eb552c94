use slint::{Model, VecModel};
use slint_node_editor::selection::SelectionManager;

fn rows(model: &VecModel<i32>) -> Vec<i32> {
    (0..model.row_count()).filter_map(|i| model.row_data(i)).collect()
}

#[test]
fn test_new_selection_is_empty() {
    let selection = SelectionManager::new();
    assert!(selection.is_empty());
    assert_eq!(selection.len(), 0);
}

#[test]
fn test_default_selection_is_empty() {
    let selection = SelectionManager::default();
    assert!(selection.is_empty());
}

#[test]
fn test_contains_returns_false_for_empty() {
    let selection = SelectionManager::new();
    assert!(!selection.contains(1));
    assert!(!selection.contains(0));
    assert!(!selection.contains(-1));
}

#[test]
fn test_contains_returns_true_for_selected() {
    let mut selection = SelectionManager::new();
    selection.handle_interaction(42, false);
    assert!(selection.contains(42));
}

#[test]
fn test_handle_interaction_click_selects_single() {
    let mut selection = SelectionManager::new();
    selection.handle_interaction(1, false);

    assert!(selection.contains(1));
    assert_eq!(selection.len(), 1);
}

#[test]
fn test_handle_interaction_click_replaces_selection() {
    let mut selection = SelectionManager::new();
    selection.handle_interaction(1, false);
    selection.handle_interaction(2, false);

    assert!(!selection.contains(1));
    assert!(selection.contains(2));
    assert_eq!(selection.len(), 1);
}

#[test]
fn test_handle_interaction_click_on_already_selected_single_is_noop() {
    let mut selection = SelectionManager::new();
    selection.handle_interaction(1, false);
    selection.handle_interaction(1, false);

    assert!(selection.contains(1));
    assert_eq!(selection.len(), 1);
}

#[test]
fn test_handle_interaction_click_on_already_selected_in_multi_collapses() {
    let mut selection = SelectionManager::new();
    selection.handle_interaction(1, true);
    selection.handle_interaction(2, true);

    assert_eq!(selection.len(), 2);

    selection.handle_interaction(1, false);

    assert!(selection.contains(1));
    assert!(!selection.contains(2));
    assert_eq!(selection.len(), 1);
}

#[test]
fn test_handle_interaction_shift_click_adds_to_selection() {
    let mut selection = SelectionManager::new();
    selection.handle_interaction(1, false);
    selection.handle_interaction(2, true);

    assert!(selection.contains(1));
    assert!(selection.contains(2));
    assert_eq!(selection.len(), 2);
}

#[test]
fn test_handle_interaction_shift_click_toggles_off() {
    let mut selection = SelectionManager::new();
    selection.handle_interaction(1, false);
    selection.handle_interaction(2, true);

    assert_eq!(selection.len(), 2);

    selection.handle_interaction(1, true);

    assert!(!selection.contains(1));
    assert!(selection.contains(2));
    assert_eq!(selection.len(), 1);
}

#[test]
fn test_handle_interaction_shift_click_on_empty_adds() {
    let mut selection = SelectionManager::new();
    selection.handle_interaction(1, true);

    assert!(selection.contains(1));
    assert_eq!(selection.len(), 1);
}

#[test]
fn test_handle_interaction_shift_click_toggle_all_off() {
    let mut selection = SelectionManager::new();
    selection.handle_interaction(1, true);
    selection.handle_interaction(1, true);

    assert!(!selection.contains(1));
    assert!(selection.is_empty());
}

#[test]
fn test_clear_empties_selection() {
    let mut selection = SelectionManager::new();
    selection.handle_interaction(1, false);
    selection.handle_interaction(2, true);

    selection.clear();

    assert!(selection.is_empty());
    assert!(!selection.contains(1));
    assert!(!selection.contains(2));
}

#[test]
fn test_clear_on_empty_is_noop() {
    let mut selection = SelectionManager::new();
    selection.clear();
    assert!(selection.is_empty());
}

#[test]
fn test_replace_selection_sets_new_items() {
    let mut selection = SelectionManager::new();
    selection.replace_selection(vec![1, 2, 3]);

    assert!(selection.contains(1));
    assert!(selection.contains(2));
    assert!(selection.contains(3));
    assert_eq!(selection.len(), 3);
}

#[test]
fn test_replace_selection_clears_previous() {
    let mut selection = SelectionManager::new();
    selection.handle_interaction(10, false);

    selection.replace_selection(vec![1, 2]);

    assert!(!selection.contains(10));
    assert!(selection.contains(1));
    assert!(selection.contains(2));
}

#[test]
fn test_replace_selection_with_empty_clears_all() {
    let mut selection = SelectionManager::new();
    selection.handle_interaction(1, false);

    selection.replace_selection(Vec::<i32>::new());

    assert!(selection.is_empty());
}

#[test]
fn test_replace_selection_deduplicates() {
    let mut selection = SelectionManager::new();
    selection.replace_selection(vec![1, 2, 1, 2, 1]);

    assert_eq!(selection.len(), 2);
}

#[test]
fn test_replace_selection_idempotent() {
    let mut selection = SelectionManager::new();
    selection.replace_selection(vec![1, 2, 3]);

    let count_before = selection.len();

    selection.replace_selection(vec![1, 2, 3]);

    assert_eq!(selection.len(), count_before);
}

#[test]
fn test_iter_returns_all_selected() {
    let mut selection = SelectionManager::new();
    selection.replace_selection(vec![1, 2, 3]);

    let mut items: Vec<i32> = selection.iter().copied().collect();
    items.sort();

    assert_eq!(items, vec![1, 2, 3]);
}

#[test]
fn test_iter_empty_selection() {
    let selection = SelectionManager::new();
    assert_eq!(selection.iter().count(), 0);
}

#[test]
fn test_sync_to_model_populates_empty_model() {
    let mut selection = SelectionManager::new();
    selection.replace_selection(vec![1, 2, 3]);

    let mut model: VecModel<i32> = VecModel::default();
    selection.sync_to_model(&mut model);

    assert_eq!(model.row_count(), 3);
}

#[test]
fn test_sync_to_model_clears_existing_data() {
    let mut selection = SelectionManager::new();
    selection.replace_selection(vec![1]);

    let mut model: VecModel<i32> = VecModel::from(vec![10, 20, 30]);
    selection.sync_to_model(&mut model);

    assert_eq!(model.row_count(), 1);
    let values = rows(&model);
    assert!(values.contains(&1));
    assert!(!values.contains(&10));
}

#[test]
fn test_sync_to_model_empty_selection() {
    let selection = SelectionManager::new();

    let mut model: VecModel<i32> = VecModel::from(vec![1, 2, 3]);
    selection.sync_to_model(&mut model);

    assert_eq!(model.row_count(), 0);
}

#[test]
fn test_sync_from_model_imports_items() {
    let mut selection = SelectionManager::new();
    let model: VecModel<i32> = VecModel::from(vec![1, 2, 3]);

    selection.sync_from_model(&model);

    assert!(selection.contains(1));
    assert!(selection.contains(2));
    assert!(selection.contains(3));
    assert_eq!(selection.len(), 3);
}

#[test]
fn test_sync_from_model_clears_existing() {
    let mut selection = SelectionManager::new();
    selection.handle_interaction(10, false);

    let model: VecModel<i32> = VecModel::from(vec![1, 2]);
    selection.sync_from_model(&model);

    assert!(!selection.contains(10));
    assert!(selection.contains(1));
    assert!(selection.contains(2));
}

#[test]
fn test_sync_from_model_empty_model() {
    let mut selection = SelectionManager::new();
    selection.handle_interaction(1, false);

    let model: VecModel<i32> = VecModel::default();
    selection.sync_from_model(&model);

    assert!(selection.is_empty());
}

#[test]
fn test_sync_roundtrip_preserves_selection() {
    let mut selection1 = SelectionManager::new();
    selection1.replace_selection(vec![1, 2, 3]);

    let mut model: VecModel<i32> = VecModel::default();
    selection1.sync_to_model(&mut model);

    let mut selection2 = SelectionManager::new();
    selection2.sync_from_model(&model);

    assert!(selection2.contains(1));
    assert!(selection2.contains(2));
    assert!(selection2.contains(3));
    assert_eq!(selection2.len(), 3);
}

#[test]
fn test_negative_ids_work() {
    let mut selection = SelectionManager::new();
    selection.handle_interaction(-1, false);
    selection.handle_interaction(-2, true);

    assert!(selection.contains(-1));
    assert!(selection.contains(-2));
}

#[test]
fn test_zero_id_works() {
    let mut selection = SelectionManager::new();
    selection.handle_interaction(0, false);

    assert!(selection.contains(0));
}

#[test]
fn selection_test_large_selection() {
    let mut selection = SelectionManager::new();
    let ids: Vec<i32> = (0..1000).collect();
    selection.replace_selection(ids);

    assert_eq!(selection.len(), 1000);
    assert!(selection.contains(0));
    assert!(selection.contains(500));
    assert!(selection.contains(999));
}

#[test]
fn sync_to_model_writes_each_id_once() {
    let mut selection = SelectionManager::new();
    selection.replace_selection(vec![7, 7, -3, 7, 12]);

    let mut model: VecModel<i32> = VecModel::from(vec![99, 7]);
    selection.sync_to_model(&mut model);

    let mut values = rows(&model);
    values.sort();
    assert_eq!(values, vec![-3, 7, 12]);
}

#[test]
fn sync_from_model_counts_repeated_rows_once() {
    let mut selection = SelectionManager::new();
    let model: VecModel<i32> = VecModel::from(vec![5, 5, 6]);
    selection.sync_from_model(&model);

    assert_eq!(selection.len(), 2);
    assert!(selection.contains(5));
    assert!(selection.contains(6));
}

#[test]
fn toggle_twice_restores_a_larger_selection() {
    let mut selection = SelectionManager::new();
    selection.replace_selection(vec![1, 2, 3]);
    selection.handle_interaction(2, true);
    assert!(!selection.contains(2));
    assert_eq!(selection.len(), 2);
    selection.handle_interaction(2, true);
    let mut items: Vec<i32> = selection.iter().copied().collect();
    items.sort();
    assert_eq!(items, vec![1, 2, 3]);
}
