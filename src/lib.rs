//! An incremental relational dataflow engine: values and relations, the four
//! kinds of views, and a scheduler that recomputes a graph of views to a
//! fixpoint.

pub mod value;
pub mod relation;
pub mod select;
pub mod primitive;
pub mod view;
pub mod flow;
pub mod convert;
pub mod laws;
