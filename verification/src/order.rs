//! The strict order that `Ord` payloads are compared by, and ordered
//! insertion into an ascending sequence.

use core::cmp::Ordering;
use vstd::prelude::*;
use vstd::laws_cmp::obeys_cmp;
use vstd::laws_eq::obeys_concrete_eq;
use vstd::std_specs::cmp::PartialOrdSpec;

verus! {

/// `a` sorts strictly before `b`.
pub open spec fn below<T: Ord>(a: T, b: T) -> bool {
    a.partial_cmp_spec(&b) == Some(Ordering::Less)
}

/// The comparison of `T` is a total order whose equality is value equality.
pub open spec fn total_order<T: Ord>() -> bool {
    obeys_cmp::<T>() && obeys_concrete_eq::<T>()
}

/// Every element sorts strictly before all later ones.
pub open spec fn ascending<T: Ord>(s: Seq<T>) -> bool {
    forall|i: int, j: int| 0 <= i < j < s.len() ==> below(#[trigger] s[i], #[trigger] s[j])
}

/// `s` with `v` put at its place in the order; unchanged if `v` is already
/// there.
pub open spec fn placed<T: Ord>(s: Seq<T>, v: T) -> Seq<T>
    decreases s.len(),
{
    if s.len() == 0 {
        seq![v]
    } else if below(v, s[0]) {
        seq![v] + s
    } else if below(s[0], v) {
        seq![s[0]] + placed(s.drop_first(), v)
    } else {
        s
    }
}

/// The values of `vals` placed one after another into an empty sequence.
pub open spec fn placed_all<T: Ord>(vals: Seq<T>) -> Seq<T>
    decreases vals.len(),
{
    if vals.len() == 0 {
        Seq::empty()
    } else {
        placed(placed_all(vals.drop_last()), vals.last())
    }
}

/// Under a total order, exactly one of `a` below `b`, `a == b`, `b` below
/// `a` holds, and `below` is transitive.
pub proof fn lemma_order_laws<T: Ord>()
    requires
        total_order::<T>(),
    ensures
        T::obeys_partial_cmp_spec(),
        forall|a: T, b: T| #[trigger] below(a, b) ==> !below(b, a) && a != b,
        forall|a: T, b: T| !#[trigger] below(a, b) && a != b ==> below(b, a),
        forall|a: T, b: T, c: T| #[trigger] below(a, b) && #[trigger] below(b, c) ==> below(a, c),
        forall|a: T, b: T|
            (#[trigger] a.partial_cmp_spec(&b) == Some(Ordering::Greater)) <==> below(b, a),
{
    reveal(vstd::laws_cmp::obeys_partial_cmp_spec_properties);
    reveal(vstd::laws_cmp::obeys_cmp_partial_ord);
    reveal(vstd::laws_cmp::obeys_cmp_ord);
    reveal(obeys_concrete_eq);
}

} // verus!
