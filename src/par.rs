use vstd::prelude::*;
use rayon::iter::IndexedParallelIterator;
use rayon::iter::IntoParallelRefIterator;
use rayon::iter::ParallelIterator;
use rayon::slice::ParallelSlice;
use crate::element::Element;
use crate::hash::Algorithm;

verus! {

/// Relies on rayon's `par_chunks`, `map` and `collect_into_vec`: the slice is
/// cut into pairs, each pair is hashed by `A::node` on the thread pool, and
/// the results are collected in the order of the pairs.
#[verifier::external_body]
pub(crate) fn par_hash_pairs<E: Element, A: Algorithm<E>>(nodes: &[E], height: usize) -> (r: Vec<E>)
    requires
        nodes@.len() % 2 == 0,
    ensures
        r@.len() == nodes@.len() / 2,
        forall|k: int|
            0 <= k < r@.len() ==> (#[trigger] r@[k]).bytes() == A::node_spec(
                nodes@[2 * k].bytes(),
                nodes@[2 * k + 1].bytes(),
                height as nat,
            ),
{
    let mut out: Vec<E> = Vec::new();
    nodes.par_chunks(2).map(|pair| A::node(pair[0], pair[1], height)).collect_into_vec(&mut out);
    out
}

/// Relies on rayon's `par_iter`, `map` and `collect_into_vec`: each element
/// is hashed by `A::leaf` on the thread pool, and the results are collected
/// in the order of the input.
#[verifier::external_body]
pub(crate) fn par_hash_leaves<E: Element, A: Algorithm<E>>(data: &[E]) -> (r: Vec<E>)
    ensures
        r@.len() == data@.len(),
        forall|k: int|
            0 <= k < r@.len() ==> (#[trigger] r@[k]).bytes() == A::leaf_spec(data@[k].bytes()),
{
    let mut out: Vec<E> = Vec::new();
    data.par_iter().map(|e| A::leaf(*e)).collect_into_vec(&mut out);
    out
}

} // verus!
