//! Constraint wrappers: values whose use is conditioned on some fact about
//! the log still holding when the host acts on them.

use vstd::prelude::*;
use crate::protos::LogPosition;

verus! {

/// A response that is valid only while the log still matches `pos` (if any):
/// the host must either hold the module locked or re-verify the position
/// before serializing the reply.
#[derive(Debug)]
pub struct MatchConstraint<T> {
    /// The constrained value.
    pub inner: T,

    /// The log position that must still match, if the value depends on one.
    pub pos: Option<LogPosition>,
}

impl<T> MatchConstraint<T> {
    /// A value valid only while the log matches `pos`.
    pub fn new(inner: T, pos: LogPosition) -> (r: Self)
        ensures
            r.inner == inner,
            r.pos == Some(pos),
    {
        MatchConstraint { inner, pos: Some(pos) }
    }

    /// A value with no position constraint attached.
    pub fn unconstrained(inner: T) -> (r: Self)
        ensures
            r.inner == inner,
            r.pos is None,
    {
        MatchConstraint { inner, pos: None }
    }
}

} // verus!
