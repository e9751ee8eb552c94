//! The row model of the user interface, as the engine sees it.
//!
//! The interface layer shows lists through `slint::VecModel`, an ordered
//! collection of rows. The engine reads and rewrites models of integer ids.
//! Nothing in this file is proved: each function states what the model's own
//! source shows of one of its methods, over [`model_rows`].
//!
//! A model changes through a shared reference. The functions that change one
//! take `&mut` all the same: a caller that holds the only reference is the
//! single writer that the rows' contract speaks of.

use slint::Model;
use slint::VecModel;
use vstd::prelude::*;

verus! {

#[verifier::external_type_specification]
#[verifier::external_body]
#[verifier::reject_recursive_types(T)]
pub struct ExVecModel<T>(VecModel<T>);

/// The rows that a model of ids holds, first row first.
pub uninterp spec fn model_rows(model: VecModel<i32>) -> Seq<i32>;

/// `Model::row_count` on a `VecModel`: the number of rows.
#[verifier::external_body]
pub(crate) fn model_row_count(model: &VecModel<i32>) -> (n: usize)
    ensures
        n == model_rows(*model).len(),
{
    model.row_count()
}

/// `Model::row_data` on a `VecModel`: a copy of the row at `row`, or `None`
/// when the model has no such row.
#[verifier::external_body]
pub(crate) fn model_row_data(model: &VecModel<i32>, row: usize) -> (data: Option<i32>)
    ensures
        data == if row < model_rows(*model).len() {
            Some(model_rows(*model)[row as int])
        } else {
            None
        },
{
    model.row_data(row)
}

/// `VecModel::remove`: takes the row at `index` out and returns it; the rows
/// behind it move up by one. The method panics when `index` is not a row.
#[verifier::external_body]
pub(crate) fn model_remove(model: &mut VecModel<i32>, index: usize) -> (removed: i32)
    requires
        index < model_rows(*old(model)).len(),
    ensures
        removed == model_rows(*old(model))[index as int],
        model_rows(*final(model)) == model_rows(*old(model)).remove(index as int),
{
    model.remove(index)
}

/// `VecModel::push`: appends `value` as the last row.
#[verifier::external_body]
pub(crate) fn model_push(model: &mut VecModel<i32>, value: i32)
    ensures
        model_rows(*final(model)) == model_rows(*old(model)).push(value),
{
    model.push(value)
}

} // verus!
