//! The order of contexts.
//!
//! A context is any type with a total order. The contracts of this crate
//! speak of that order through [`precedes`] and [`at_or_before`], and rely on
//! the laws gathered in [`total_order`].

use core::cmp::Ordering;
use vstd::prelude::*;
use vstd::std_specs::cmp::OrdSpec;
use vstd::std_specs::cmp::PartialOrdSpec;

verus! {

/// How one context stands to another in time.
#[derive(Clone, Copy, Debug, PartialEq, Eq, Structural)]
pub enum Chronology {
    /// The first context comes before the second.
    Earlier,
    /// The two contexts are the same.
    Same,
    /// The first context comes after the second.
    Later,
}

/// `a` comes strictly before `b`.
pub open spec fn precedes<C: Ord>(a: C, b: C) -> bool {
    a.cmp_spec(&b) == Ordering::Less
}

/// `a` is `b` or comes before it.
pub open spec fn at_or_before<C: Ord>(a: C, b: C) -> bool {
    a == b || precedes(a, b)
}

/// The comparison of `C` is a total order that agrees with equality: the
/// executable comparison computes `cmp_spec`, which is a lawful order, and two
/// contexts compare as equal exactly when they are the same value.
pub open spec fn total_order<C: Ord>() -> bool {
    &&& vstd::laws_cmp::obeys_cmp::<C>()
    &&& vstd::laws_eq::obeys_concrete_eq::<C>()
}

/// How `a` stands to `b`.
pub open spec fn chronology<C: Ord>(a: C, b: C) -> Chronology {
    if precedes(a, b) {
        Chronology::Earlier
    } else if a == b {
        Chronology::Same
    } else {
        Chronology::Later
    }
}

/// Of two contexts exactly one holds: the first precedes the second, they
/// are the same, or the second precedes the first.
pub proof fn lemma_trichotomy<C: Ord>(a: C, b: C)
    requires
        total_order::<C>(),
    ensures
        precedes(a, b) || a == b || precedes(b, a),
        !(precedes(a, b) && a == b),
        !(precedes(b, a) && a == b),
        !(precedes(a, b) && precedes(b, a)),
{
    reveal(vstd::laws_cmp::obeys_cmp_ord);
    reveal(vstd::laws_cmp::obeys_partial_cmp_spec_properties);
    reveal(vstd::laws_eq::obeys_concrete_eq);
}

/// Precedence is transitive.
pub proof fn lemma_precedes_transitive<C: Ord>(a: C, b: C, c: C)
    requires
        total_order::<C>(),
        precedes(a, b),
        precedes(b, c),
    ensures
        precedes(a, c),
{
    reveal(vstd::laws_cmp::obeys_cmp_ord);
    reveal(vstd::laws_cmp::obeys_partial_cmp_spec_properties);
}

/// `precedes` followed by `at_or_before` gives `precedes`.
pub proof fn lemma_precedes_then_at_or_before<C: Ord>(a: C, b: C, c: C)
    requires
        total_order::<C>(),
        precedes(a, b),
        at_or_before(b, c),
    ensures
        precedes(a, c),
{
    if b != c {
        lemma_precedes_transitive(a, b, c);
    }
}

/// Compares two contexts.
pub fn compare<C: Ord>(a: &C, b: &C) -> (r: Chronology)
    requires
        total_order::<C>(),
    ensures
        r == chronology(*a, *b),
{
    proof {
        reveal(vstd::laws_cmp::obeys_cmp_ord);
        reveal(vstd::laws_cmp::obeys_cmp_partial_ord);
        reveal(vstd::laws_eq::obeys_concrete_eq);
    }
    match a.cmp(b) {
        Ordering::Less => Chronology::Earlier,
        Ordering::Equal => Chronology::Same,
        Ordering::Greater => Chronology::Later,
    }
}

} // verus!
