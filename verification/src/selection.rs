//! Selection state for click, shift-click and box selection.
//!
//! A [`SelectionManager`] is a set of integer ids. Its behaviour on a click
//! depends only on the id and on whether shift is held; it knows nothing of
//! geometry. Its view, written `s@`, is the mathematical set of selected ids,
//! and every contract below is stated over that set.

use crate::model::{model_push, model_remove, model_row_count, model_row_data, model_rows};
use slint::VecModel;
use std::collections::hash_set::Iter;
use std::collections::HashSet;
use vstd::prelude::*;
use vstd::std_specs::hash::group_hash_axioms;
use vstd::std_specs::iter::IteratorSpec;

verus! {

broadcast use group_hash_axioms;

/// What a click on `id` makes of the selection `before`.
///
/// With shift held the click toggles `id`; without it the selection becomes
/// `id` alone.
pub open spec fn interaction_result(before: Set<i32>, id: i32, shift_held: bool) -> Set<i32> {
    if shift_held {
        if before.contains(id) {
            before.remove(id)
        } else {
            before.insert(id)
        }
    } else {
        set![id]
    }
}

/// The set of currently selected item ids.
pub struct SelectionManager {
    selected: HashSet<i32>,
}

impl View for SelectionManager {
    type V = Set<i32>;

    closed spec fn view(&self) -> Set<i32> {
        self.selected@
    }
}

impl Default for SelectionManager {
    fn default() -> (s: Self)
        ensures
            s@ == Set::<i32>::empty(),
    {
        SelectionManager { selected: HashSet::new() }
    }
}

impl SelectionManager {
    /// Creates an empty selection.
    pub fn new() -> (s: Self)
        ensures
            s@ == Set::<i32>::empty(),
    {
        SelectionManager { selected: HashSet::new() }
    }

    /// Applies a click on `id`.
    ///
    /// With `shift_held` the id is toggled. Without it the selection collapses
    /// to `id` alone; when it already is exactly `{id}` nothing is touched.
    pub fn handle_interaction(&mut self, id: i32, shift_held: bool)
        ensures
            final(self)@ == interaction_result(old(self)@, id, shift_held),
    {
        if shift_held {
            if self.selected.contains(&id) {
                self.selected.remove(&id);
            } else {
                self.selected.insert(id);
            }
        } else {
            if self.selected.len() == 1 && self.selected.contains(&id) {
                proof {
                    self.lemma_finite();
                    lemma_singleton_of_member(self.selected@, id);
                }
                return ;
            }
            self.selected.clear();
            self.selected.insert(id);
            assert(self.selected@ =~= set![id]);
        }
    }

    /// Empties the selection.
    pub fn clear(&mut self)
        ensures
            final(self)@ == Set::<i32>::empty(),
    {
        self.selected.clear();
    }

    /// Replaces the selection by the ids in `ids`; repeated ids count once.
    pub fn replace_selection(&mut self, ids: Vec<i32>)
        ensures
            final(self)@ == ids@.to_set(),
    {
        self.selected.clear();
        let n = ids.len();
        let mut i: usize = 0;
        while i < n
            invariant
                n == ids.len(),
                i <= n,
                self.selected@ == ids@.take(i as int).to_set(),
            decreases n - i,
        {
            self.selected.insert(ids[i]);
            proof {
                lemma_take_push_to_set(ids@, i as int);
            }
            i += 1;
        }
        assert(ids@.take(n as int) =~= ids@);
    }

    /// Whether `id` is selected.
    pub fn contains(&self, id: i32) -> (b: bool)
        ensures
            b == self@.contains(id),
    {
        self.selected.contains(&id)
    }

    /// The number of selected ids.
    pub fn len(&self) -> (n: usize)
        ensures
            n == self@.len(),
            self@.finite(),
    {
        proof {
            self.lemma_finite();
        }
        self.selected.len()
    }

    /// Whether nothing is selected.
    pub fn is_empty(&self) -> (b: bool)
        ensures
            b == self@.is_empty(),
    {
        self.selected.is_empty()
    }

    /// An iterator over the selected ids, each once, in no particular order.
    pub fn iter(&self) -> (it: Iter<'_, i32>)
        ensures
            it.remaining().unref().to_set() == self@,
            it.remaining().no_duplicates(),
            it.remaining().len() == self@.len(),
    {
        self.selected.iter()
    }

    /// Rewrites `model` so that its rows are exactly the selected ids, each
    /// once. The order of the rows is not fixed.
    pub fn sync_to_model(&self, model: &mut VecModel<i32>)
        ensures
            model_rows(*final(model)).to_set() == self@,
            model_rows(*final(model)).no_duplicates(),
    {
        while model_row_count(model) > 0
            decreases model_rows(*model).len(),
        {
            model_remove(model, 0);
        }
        assert(model_rows(*model) =~= Seq::<i32>::empty());
        let ghost keys = self.selected.iter().remaining().unref();
        for id in it: self.selected.iter()
            invariant
                it.seq().unref() == keys,
                model_rows(*model) == keys.take(it.index() as int),
        {
            model_push(model, *id);
            assert(model_rows(*model) =~= keys.take(it.index() + 1));
        }
        assert(model_rows(*model) =~= keys);
        assert(keys.no_duplicates()) by {
            let refs = self.selected.iter().remaining();
            assert forall|i: int, j: int| 0 <= i < keys.len() && 0 <= j < keys.len() && i != j
                implies keys[i] != keys[j] by {
                assert(refs[i] != refs[j]);
            }
        }
    }

    /// Replaces the selection by the rows of `model`.
    pub fn sync_from_model(&mut self, model: &VecModel<i32>)
        ensures
            final(self)@ == model_rows(*model).to_set(),
    {
        self.selected.clear();
        let n = model_row_count(model);
        let mut i: usize = 0;
        while i < n
            invariant
                n == model_rows(*model).len(),
                i <= n,
                self.selected@ == model_rows(*model).take(i as int).to_set(),
            decreases n - i,
        {
            if let Some(id) = model_row_data(model, i) {
                self.selected.insert(id);
            }
            proof {
                lemma_take_push_to_set(model_rows(*model), i as int);
            }
            i += 1;
        }
        assert(model_rows(*model).take(n as int) =~= model_rows(*model));
    }

    /// A selection always holds finitely many ids.
    pub proof fn lemma_finite(&self)
        ensures
            self@.finite(),
    {
        let keys = self.selected.iter().remaining().unref();
        assert(keys.to_set() == self.selected@);
        vstd::seq_lib::seq_to_set_is_finite(keys);
    }
}

/// Toggling is its own inverse: two shift-clicks on the same id leave the
/// selection as it was, whatever it held.
pub proof fn lemma_toggle_twice_restores(before: Set<i32>, id: i32)
    ensures
        interaction_result(interaction_result(before, id, true), id, true) == before,
{
    let once = interaction_result(before, id, true);
    let twice = interaction_result(once, id, true);
    assert(twice =~= before);
}

/// Two shift-clicks on one id in an empty selection leave it empty, and the
/// state in between is that id alone.
pub proof fn lemma_toggle_twice_on_empty(id: i32)
    ensures
        interaction_result(Set::<i32>::empty(), id, true) == set![id],
        interaction_result(set![id], id, true) == Set::<i32>::empty(),
{
    assert(interaction_result(Set::<i32>::empty(), id, true) =~= set![id]);
    assert(interaction_result(set![id], id, true) =~= Set::<i32>::empty());
}

/// A click without shift collapses any selection to the clicked id alone: the
/// result holds `id`, holds nothing else, and has one element.
pub proof fn lemma_click_collapses(before: Set<i32>, id: i32)
    ensures
        interaction_result(before, id, false) == set![id],
        interaction_result(before, id, false).contains(id),
        forall|other: i32|
            other != id ==> !interaction_result(before, id, false).contains(other),
        interaction_result(before, id, false).finite(),
        interaction_result(before, id, false).len() == 1,
{
}

/// A set of one element that contains `id` is `{id}`.
proof fn lemma_singleton_of_member(s: Set<i32>, id: i32)
    requires
        s.finite(),
        s.len() == 1,
        s.contains(id),
    ensures
        s == set![id],
{
    let rest = s.remove(id);
    assert(rest.len() == 0);
    assert(rest =~= Set::<i32>::empty());
    assert(s =~= set![id]) by {
        assert forall|x: i32| s.contains(x) implies x == id by {
            if x != id {
                assert(rest.contains(x));
            }
        }
    }
}

/// Adding element `i` to the set of the first `i` elements gives the set of
/// the first `i + 1`.
proof fn lemma_take_push_to_set(s: Seq<i32>, i: int)
    requires
        0 <= i < s.len(),
    ensures
        s.take(i + 1).to_set() == s.take(i).to_set().insert(s[i]),
{
    let longer = s.take(i + 1);
    let shorter = s.take(i);
    let a = longer.to_set();
    let b = shorter.to_set().insert(s[i]);
    assert forall|x: i32| a.contains(x) <==> b.contains(x) by {
        if a.contains(x) {
            let k = choose|k: int| 0 <= k < longer.len() && #[trigger] longer[k] == x;
            if k < i {
                assert(shorter[k] == x);
            }
        }
        if b.contains(x) {
            if x == s[i] {
                assert(longer[i] == x);
            } else {
                let k = choose|k: int| 0 <= k < shorter.len() && #[trigger] shorter[k] == x;
                assert(longer[k] == x);
            }
        }
    }
    assert(a =~= b);
}

} // verus!
