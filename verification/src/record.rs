//! Records, the atomic unit of history.

use vstd::prelude::*;

verus! {

/// One fact: at `context`, `link` is associated with `value`, or with nothing
/// where `value` is `None`. A record is never changed once it is stored.
#[derive(Debug, PartialEq, Eq)]
pub struct ContextRecord<C, L, V> {
    /// When the fact became true.
    pub context: C,
    /// The link that the fact is about.
    pub link: L,
    /// What the link is associated with from `context` on.
    pub value: Option<V>,
}

impl<C: Copy, L: Copy, V: Copy> Clone for ContextRecord<C, L, V> {
    fn clone(&self) -> (copy: Self)
        ensures
            copy == *self,
    {
        *self
    }
}

impl<C: Copy, L: Copy, V: Copy> Copy for ContextRecord<C, L, V> {

}

impl<C: Copy, L: Copy, V: Copy> ContextRecord<C, L, V> {
    /// The record that associates `link` with `value` from `context` on.
    pub open spec fn some(context: C, link: L, value: V) -> Self {
        ContextRecord { context, link, value: Some(value) }
    }

    /// The record that associates `link` with nothing from `context` on.
    pub open spec fn none(context: C, link: L) -> Self {
        ContextRecord { context, link, value: None }
    }

    /// Creates a record that carries a value.
    pub fn new_some(context: &C, link: &L, value: &V) -> (record: Self)
        ensures
            record == Self::some(*context, *link, *value),
    {
        ContextRecord { context: *context, link: *link, value: Some(*value) }
    }

    /// Creates a record that carries no value.
    pub fn new_none(context: &C, link: &L) -> (record: Self)
        ensures
            record == Self::none(*context, *link),
    {
        ContextRecord { context: *context, link: *link, value: None }
    }
}

} // verus!
