//! Permutations and cartesian products, from itertools.
use itertools::Itertools;
use vstd::prelude::*;

verus! {

/// `q` lists `k` distinct elements of `v` in some order.
pub open spec fn is_arrangement(q: Seq<u8>, v: Seq<u8>, k: int) -> bool {
    &&& q.len() == k
    &&& q.no_duplicates()
    &&& forall|j: int| 0 <= j < q.len() ==> v.contains(#[trigger] q[j])
}

/// `t` takes its element at each position from the options at that position.
pub open spec fn is_selection(t: Seq<u8>, options: Seq<Vec<u8>>) -> bool {
    &&& t.len() == options.len()
    &&& forall|j: int| 0 <= j < t.len() ==> options[j]@.contains(#[trigger] t[j])
}

/// Relies on `Itertools::permutations`: every `k`-permutation of the (distinct) input elements,
/// each as a `Vec`.
#[verifier::external_body]
pub(crate) fn permutations_of(v: &Vec<u8>, k: usize) -> (r: Vec<Vec<u8>>)
    requires
        v@.no_duplicates(),
    ensures
        forall|i: int| 0 <= i < r@.len() ==> is_arrangement(#[trigger] r@[i]@, v@, k as int),
        forall|q: Seq<u8>|
            #[trigger] is_arrangement(q, v@, k as int) ==> exists|i: int|
                0 <= i < r@.len() && r@[i]@ == q,
{
    v.iter().copied().permutations(k).collect()
}

/// Relies on `Itertools::multi_cartesian_product` over a non-empty list of option lists: every
/// selection of one option per position, each as a `Vec`.
#[verifier::external_body]
pub(crate) fn selections_of(options: &Vec<Vec<u8>>) -> (r: Vec<Vec<u8>>)
    requires
        options@.len() > 0,
    ensures
        forall|i: int|
            0 <= i < r@.len() ==> is_selection(
                #[trigger] r@[i]@,
                options@,
            ),
        forall|t: Seq<u8>|
            #[trigger] is_selection(t, options@) ==> exists|i: int|
                0 <= i < r@.len() && r@[i]@ == t,
{
    options.iter().map(|o| o.iter().copied()).multi_cartesian_product().collect()
}

} // verus!
