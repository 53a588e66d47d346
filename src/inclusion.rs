use vstd::prelude::*;
use crate::element::Element;
use crate::hash::Algorithm;
use crate::model::{fold_up, proof_valid};
use crate::store::bytes_of;

verus! {

/// An inclusion proof: the leaf, the siblings on its way up from the bottom,
/// and the root (`lemma`), with one bit per level telling whether the node
/// on the way is a left child (`path`).
pub struct Proof<E: Element> {
    lemma: Vec<E>,
    path: Vec<bool>,
}

impl<E: Element> Proof<E> {
    /// The bytes of the lemma's elements.
    pub closed spec fn lemma_bytes(&self) -> Seq<Seq<u8>> {
        bytes_of(self.lemma@)
    }

    pub closed spec fn path_bits(&self) -> Seq<bool> {
        self.path@
    }

    pub fn new(lemma: Vec<E>, path: Vec<bool>) -> (r: Self)
        ensures
            r.lemma_bytes() == bytes_of(lemma@),
            r.path_bits() == path@,
    {
        Proof { lemma, path }
    }

    pub fn lemma(&self) -> (r: &Vec<E>)
        ensures
            bytes_of(r@) == self.lemma_bytes(),
    {
        &self.lemma
    }

    pub fn path(&self) -> (r: &Vec<bool>)
        ensures
            r@ == self.path_bits(),
    {
        &self.path
    }

    /// The proved leaf: the first element of the lemma.
    pub fn item(&self) -> (r: Option<E>)
        ensures
            self.lemma_bytes().len() == 0 <==> r is None,
            r is Some ==> r->Some_0.bytes() == self.lemma_bytes()[0],
    {
        if self.lemma.len() == 0 {
            None
        } else {
            Some(self.lemma[0])
        }
    }

    /// The root the proof leads to: the last element of the lemma.
    pub fn root(&self) -> (r: Option<E>)
        ensures
            self.lemma_bytes().len() == 0 <==> r is None,
            r is Some ==> r->Some_0.bytes() == self.lemma_bytes().last(),
    {
        if self.lemma.len() == 0 {
            None
        } else {
            Some(self.lemma[self.lemma.len() - 1])
        }
    }

    /// Whether hashing the leaf up through the siblings, on the sides the
    /// path gives, reaches the root.
    pub fn validate<A: Algorithm<E>>(&self) -> (r: bool)
        ensures
            r == proof_valid::<E, A>(self.lemma_bytes(), self.path_bits()),
    {
        let size = self.lemma.len();
        if size < 2 || self.path.len() != size - 2 {
            return false;
        }
        let ghost lb = self.lemma_bytes();
        let ghost sibs = lb.subrange(1, lb.len() - 1);
        let mut h: E = self.lemma[0];
        let mut i: usize = 1;
        proof {
            assert(sibs.subrange(0, sibs.len() as int) =~= sibs);
            assert(self.path@.subrange(0, self.path@.len() as int) =~= self.path@);
        }
        while i < size - 1
            invariant
                size == self.lemma@.len(),
                size >= 2,
                self.path@.len() == size - 2,
                lb == self.lemma_bytes(),
                sibs == lb.subrange(1, lb.len() - 1),
                1 <= i <= size - 1,
                fold_up::<E, A>(
                    h.bytes(),
                    sibs.subrange(i - 1, sibs.len() as int),
                    self.path@.subrange(i - 1, self.path@.len() as int),
                    (i - 1) as nat,
                ) == fold_up::<E, A>(lb[0], sibs, self.path@, 0),
            decreases size - 1 - i,
        {
            let ghost rest_s = sibs.subrange(i - 1, sibs.len() as int);
            let ghost rest_p = self.path@.subrange(i - 1, self.path@.len() as int);
            h = if self.path[i - 1] {
                A::node(h, self.lemma[i], i - 1)
            } else {
                A::node(self.lemma[i], h, i - 1)
            };
            proof {
                assert(rest_s.drop_first() =~= sibs.subrange(i as int, sibs.len() as int));
                assert(rest_p.drop_first() =~= self.path@.subrange(i as int, self.path@.len() as int));
                assert(rest_s[0] == lb[i as int]);
            }
            i = i + 1;
        }
        proof {
            assert(sibs.subrange(i - 1, sibs.len() as int).len() == 0);
        }
        h.same_bytes(&self.lemma[size - 1])
    }
}

} // verus!
