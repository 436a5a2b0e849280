//! Declarative configuration engine: a typed value algebra for option
//! mutation, conditional aggregation of configuration fragments, and a
//! hash-based trust gate for local configuration sources.

pub mod text;
pub mod value;
pub mod algebra;
pub mod scope;
pub mod condition;
pub mod lua;
pub mod config;
pub mod aggregate;
pub mod hashes;
pub mod engine;

use vstd::prelude::*;

verus! {

/// The deep view of a vector indexes to its elements' deep views.
pub proof fn lemma_vec_deep_view_index<T: DeepView>(v: &Vec<T>)
    ensures
        v.deep_view().len() == v@.len(),
        forall|k: int| 0 <= k < v@.len() ==> #[trigger] v.deep_view()[k] == v@[k].deep_view(),
{
    assert forall|k: int| 0 <= k < v@.len() implies #[trigger] v.deep_view()[k]
        == v@[k].deep_view() by {
        assert(v.deep_view()[k] == v@[k].deep_view());
    }
}

} // verus!
