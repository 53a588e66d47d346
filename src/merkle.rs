use vstd::prelude::*;
use core::marker::PhantomData;
use crate::element::Element;
use crate::error::MerkleError;
use crate::hash::Algorithm;
use crate::inclusion::Proof;
use crate::model::{
    concat_bytes, fold_up, lemma_fold_concat, lemma_fold_reaches_root, lemma_window_root, height_from, is_pow2, leaf_hashes, lemma_chunks_concat, lemma_height_bounds,
    lemma_height_log2, lemma_level_suffix, lemma_parents_len, lemma_pow2_divides,
    lemma_pow2_height, lemma_pow2_of, lemma_pow2_tree_len, lemma_pow2_unpadded,
    lemma_proof_lemma_valid, lemma_root_step, lemma_siblings_len, lemma_siblings_split,
    lemma_stores_fit, lemma_tree_len, lemma_tree_len_bound, lemma_tree_len_ge, level_base,
    level_up, log2, pad, parents, path_bits, pow2_of, proof_lemma, proof_valid, root_of,
    sibling, siblings, tree_from, tree_len, unpadded,
};
use crate::par::{par_hash_leaves, par_hash_pairs};
use crate::store::{Store, bytes_of, chunks, same_elems};
use crate::vec_store::VecStore;
use vstd::slice::slice_to_vec;
use crate::sizes::{
    is_power_of_two, lemma_level_base_bound, lemma_window_position, level_start, pow2_upto, tree_size,
};
pub use crate::sizes::{log2_pow2, next_pow2, pow2_ceil};

verus! {

/// A Merkle tree over the leaves `leaf_seq`, held in two stores: `leaves`
/// holds the lowest level (padded to even width), `top_half` all the levels
/// above it, from the bottom. The root is also kept apart.
pub struct MerkleTree<E: Element, A: Algorithm<E>, K: Store<E>> {
    // `None` once compaction dropped the leaves too; their number, padded,
    // is `leaves_len` either way.
    leaves: Option<K>,
    leaves_len: usize,
    top_half: K,
    leafs: usize,
    height: usize,
    root: E,
    // Nodes of `top_half`'s full contents before this index were dropped
    // by compaction; `top_half` holds the rest.
    cached_from: usize,
    leaf_seq: Ghost<Seq<Seq<u8>>>,
    alg: PhantomData<A>,
}

/// Hashes the level of width `width` that `store` holds from `start` on,
/// after duplicating its last node if the width is odd (the duplicate is
/// stored). Returns the level above.
fn hash_level<E: Element, A: Algorithm<E>, K: Store<E>>(
    store: &mut K,
    start: usize,
    width: usize,
    height: usize,
    Ghost(cur): Ghost<Seq<Seq<u8>>>,
) -> (r: Result<Vec<E>, MerkleError>)
    requires
        old(store).inv(),
        width >= 2,
        width == cur.len(),
        start + width == old(store).elems().len(),
        old(store).elems().subrange(start as int, start + width) == cur,
    ensures
        final(store).inv(),
        final(store).capacity() == old(store).capacity(),
        old(store).elems().len() + width % 2 <= old(store).capacity() ==> r is Ok,
        r is Err ==> r == Err::<Vec<E>, MerkleError>(
            MerkleError::InsufficientCapacity { requested: 1, available: 0 },
        ),
        r is Ok ==> final(store).elems() == old(store).elems().subrange(0, start as int) + pad(cur)
            && bytes_of(r->Ok_0@) == parents::<E, A>(cur, height as nat),
{
    proof {
        old(store).lemma_inv();
    }
    let mut w = width;
    if width % 2 == 1 {
        let last = match store.read_at(start + width - 1) {
            Ok(e) => e,
            Err(e) => return Err(e),
        };
        match store.push(last) {
            Ok(()) => {},
            Err(e) => return Err(e),
        }
        w = width + 1;
        proof {
            store.lemma_inv();
        }
    }
    proof {
        assert(store.elems() =~= old(store).elems().subrange(0, start as int) + pad(cur));
        assert(pad(cur).len() == w);
        assert(w % 2 == 0);
    }
    assert(start + w == store.elems().len());
    let nodes = match store.read_range(start, start + w) {
        Ok(v) => v,
        Err(e) => return Err(e),
    };
    proof {
        assert(bytes_of(nodes@).len() == nodes@.len());
        assert(nodes@.len() == w);
    }
    let out = par_hash_pairs::<E, A>(nodes.as_slice(), height);
    proof {
        assert(bytes_of(nodes@) == pad(cur));
        assert(bytes_of(out@) =~= parents::<E, A>(cur, height as nat));
    }
    Ok(out)
}

/// Appends `items` to `store`.
fn push_all<E: Element, K: Store<E>>(store: &mut K, items: &Vec<E>) -> (r: Result<(), MerkleError>)
    requires
        old(store).inv(),
    ensures
        final(store).inv(),
        final(store).capacity() == old(store).capacity(),
        old(store).elems().len() + items@.len() <= old(store).capacity() ==> r is Ok,
        r is Err ==> r == Err::<(), MerkleError>(
            MerkleError::InsufficientCapacity { requested: 1, available: 0 },
        ),
        r is Ok ==> final(store).elems() == old(store).elems() + bytes_of(items@),
{
    let mut k: usize = 0;
    while k < items.len()
        invariant
            store.inv(),
            store.capacity() == old(store).capacity(),
            k <= items@.len(),
            old(store).elems().len() + items@.len() <= old(store).capacity() ==> store.elems().len()
                + (items@.len() - k) <= store.capacity(),
            store.elems() == old(store).elems() + bytes_of(items@.subrange(0, k as int)),
        decreases items@.len() - k,
    {
        match store.push(items[k]) {
            Ok(()) => {},
            Err(e) => return Err(e),
        }
        proof {
            assert(bytes_of(items@.subrange(0, k + 1)) =~= bytes_of(items@.subrange(0, k as int)).push(
                items@[k as int].bytes(),
            ));
        }
        k = k + 1;
    }
    proof {
        assert(items@.subrange(0, items@.len() as int) =~= items@);
    }
    Ok(())
}

/// Level at which the partial trees for `levels` cached levels have their
/// roots, in a tree over `n` leaves.
pub open spec fn window_level(n: nat, levels: nat) -> nat {
    (height_from(n) - 1 - levels) as nat
}

/// Number of leaves under one partial tree.
pub open spec fn window_len(n: nat, levels: nat) -> nat {
    pow2_of(window_level(n, levels))
}

/// Partial trees with `levels` cached levels fit a tree over `n` leaves:
/// a power of two of leaves, and windows of at least two leaves.
pub open spec fn partial_fits(n: nat, levels: nat) -> bool {
    is_pow2(n) && levels + 2 <= height_from(n)
}

/// Position of the first node kept by compaction with `levels` cached
/// levels: the first node of the partial trees' root level.
pub open spec fn cache_start(n: nat, levels: nat) -> nat {
    level_base(n, window_level(n, levels))
}

/// Compaction keeps no more nodes than it drops.
pub open spec fn compaction_shrinks(n: nat, levels: nat) -> bool {
    tree_len(n) - cache_start(n, levels) <= cache_start(n, levels) - n
}

/// The leaves under the partial tree that holds leaf `i`.
pub open spec fn window_of(l: Seq<Seq<u8>>, levels: nat, i: nat) -> Seq<Seq<u8>> {
    let q = window_len(l.len(), levels);
    l.subrange(((i / q) * q) as int, ((i / q) * q + q) as int)
}

/// A proof together with the partial tree it was drawn from, which serves
/// further proofs for leaves under the same window.
pub struct ProofAndTree<E: Element, A: Algorithm<E>> {
    pub proof: Proof<E>,
    pub merkle_tree: MerkleTree<E, A, VecStore<E>>,
}

impl<E: Element, A: Algorithm<E>, K: Store<E>> MerkleTree<E, A, K> {
    /// The leaves the tree was built over (after leaf hashing).
    pub closed spec fn leaf_seq(&self) -> Seq<Seq<u8>> {
        self.leaf_seq@
    }

    /// All nodes of the tree, leaves first, in the order of `read_at`
    /// (whether or not compaction dropped some of them).
    pub closed spec fn elems(&self) -> Seq<Seq<u8>> {
        tree_from::<E, A>(self.leaf_seq@, 0)
    }

    /// Position of the first node kept above the leaves: the nodes from the
    /// leaves' end up to here were dropped by compaction.
    pub closed spec fn cache_base(&self) -> nat {
        (self.leaves_len + self.cached_from) as nat
    }

    /// `try_offload_store` releases the memory of both stores (a store
    /// dropped by compaction counts as released).
    pub closed spec fn offloadable(&self) -> bool {
        (match self.leaves {
            Some(s) => s.offloadable(),
            None => true,
        }) && self.top_half.offloadable()
    }

    /// The tree still holds its leaves.
    pub closed spec fn has_base(&self) -> bool {
        self.leaves is Some
    }

    /// Whether node `i` can be read: it is a leaf or lies in the kept levels.
    pub open spec fn readable(&self, i: int) -> bool {
        (i < pad(self.leaf_seq()).len() && self.has_base()) || self.cache_base() <= i
    }

    /// No node has been dropped.
    pub open spec fn is_full(&self) -> bool {
        self.cache_base() == pad(self.leaf_seq()).len() && self.has_base()
    }

    pub closed spec fn root_bytes(&self) -> Seq<u8> {
        self.root.bytes()
    }

    pub closed spec fn height_spec(&self) -> nat {
        self.height as nat
    }

    pub closed spec fn leafs_spec(&self) -> nat {
        self.leafs as nat
    }

    pub closed spec fn inv(&self) -> bool {
        let l = self.leaf_seq@;
        &&& match self.leaves {
            Some(s) => s.inv() && s.elems() == pad(l),
            None => true,
        }
        &&& self.leaves_len == pad(l).len()
        &&& self.top_half.inv()
        &&& l.len() >= 2
        &&& self.cached_from <= tree_from::<E, A>(parents::<E, A>(l, 0), 1).len()
        &&& self.top_half.elems() == tree_from::<E, A>(parents::<E, A>(l, 0), 1).subrange(
            self.cached_from as int,
            tree_from::<E, A>(parents::<E, A>(l, 0), 1).len() as int,
        )
        &&& tree_len(l.len()) * E::width() <= usize::MAX
        &&& tree_len(l.len()) <= usize::MAX
        &&& self.elems() == pad(l) + tree_from::<E, A>(parents::<E, A>(l, 0), 1)
    }

    /// The tree holds exactly the padded levels of its leaves, and its
    /// cached root, height and leaf count agree with them.
    pub open spec fn wf(&self) -> bool {
        &&& self.inv()
        &&& self.leaf_seq().len() >= 2
        &&& self.elems() == tree_from::<E, A>(self.leaf_seq(), 0)
        &&& self.elems().len() == tree_len(self.leaf_seq().len())
        &&& self.elems().len() <= usize::MAX
        &&& self.root_bytes() == root_of::<E, A>(self.leaf_seq())
        &&& self.height_spec() == height_from(self.leaf_seq().len())
        &&& self.leafs_spec() == self.leaf_seq().len()
        &&& pad(self.leaf_seq()).len() <= self.cache_base() <= self.elems().len()
    }

    /// Computes every level above the leaves that `leaves` holds, writing
    /// them into `top_half`, and caches the root.
    fn build(leaves: K, top_half: K, leafs: usize) -> (r: Result<Self, MerkleError>)
        requires
            leaves.inv(),
            top_half.inv(),
            leafs >= 2,
            leaves.elems().len() == leafs,
            top_half.elems().len() == 0,
            tree_len(leafs as nat) * E::width() <= usize::MAX,
        ensures
            r is Ok ==> r->Ok_0.wf() && r->Ok_0.is_full() && r->Ok_0.leaf_seq() == leaves.elems(),
            leaves.capacity() >= leafs + leafs % 2 && top_half.capacity() + leafs + leafs % 2
                >= tree_len(leafs as nat) ==> r is Ok,
            r is Err ==> r == Err::<Self, MerkleError>(
                MerkleError::InsufficientCapacity { requested: 1, available: 0 },
            ),
    {
        let ghost l = leaves.elems();
        proof {
            E::lemma_bytes_len(arbitrary());
            assert(tree_len(leafs as nat) <= tree_len(leafs as nat) * E::width()) by (nonlinear_arith)
                requires
                    E::width() >= 1,
            ;
        }
        let ghost fits = leaves.capacity() >= leafs + leafs % 2 && top_half.capacity() + leafs
            + leafs % 2 >= tree_len(leafs as nat);
        let ghost top_cap = top_half.capacity();
        let ghost lcap = leaves.capacity();
        let mut lv = leaves;
        let mut top = top_half;
        proof {
            assert(lv.elems().subrange(0, leafs as int) =~= l);
            lemma_parents_len::<E, A>(l, 0);
        }
        let first = match hash_level::<E, A, K>(&mut lv, 0, leafs, 0, Ghost(l)) {
            Ok(v) => v,
            Err(e) => return Err(e),
        };
        proof {
            assert(lv.elems() =~= pad(l));
            lemma_tree_len::<E, A>(parents::<E, A>(l, 0), 1);
            lemma_tree_len_ge(parents::<E, A>(l, 0).len());
        }
        match push_all(&mut top, &first) {
            Ok(()) => {},
            Err(e) => return Err(e),
        }
        let ghost target = tree_from::<E, A>(parents::<E, A>(l, 0), 1);
        let ghost mut cur = parents::<E, A>(l, 0);
        let mut width: usize = first.len();
        let mut start: usize = 0;
        let mut level: usize = 1;
        proof {
            lemma_height_bounds(leafs as nat);
            assert(top.elems() =~= cur);
            assert(top.elems().subrange(0, 0) + tree_from::<E, A>(cur, 1) =~= target);
            assert(top.elems().subrange(0, width as int) =~= cur);
        }
        while width > 1
            invariant
                lv.inv(),
                top.inv(),
                top.capacity() == top_cap,
                lv.elems() == pad(l),
                l.len() == leafs,
                leafs >= 2,
                target == tree_from::<E, A>(parents::<E, A>(l, 0), 1),
                target.len() <= usize::MAX,
                cur.len() == width,
                width >= 1,
                start + width == top.elems().len(),
                top.elems().subrange(start as int, start + width) == cur,
                top.elems().subrange(0, start as int) + tree_from::<E, A>(cur, level as nat) == target,
                level + height_from(width as nat) == height_from(leafs as nat),
                height_from(leafs as nat) <= leafs,
                fits ==> top_cap >= target.len(),
                lcap == leaves.capacity(),
                top_cap == top_half.capacity(),
                fits == (lcap >= leafs + leafs % 2 && top_cap + leafs + leafs % 2 >= tree_len(
                    leafs as nat,
                )),
            decreases width,
        {
            proof {
                lemma_parents_len::<E, A>(cur, level as nat);
                lemma_tree_len::<E, A>(cur, level as nat);
                lemma_tree_len::<E, A>(parents::<E, A>(cur, level as nat), level as nat + 1);
                lemma_tree_len_ge(parents::<E, A>(cur, level as nat).len());
                top.lemma_inv();
                lemma_height_bounds(width as nat);
                lemma_height_bounds(leafs as nat);
                assert(target.len() == start + tree_from::<E, A>(cur, level as nat).len());
                assert(tree_from::<E, A>(cur, level as nat) == pad(cur) + tree_from::<E, A>(
                    parents::<E, A>(cur, level as nat),
                    level as nat + 1,
                ));
                assert(fits ==> top.elems().len() + width % 2 <= top.capacity());
                assert(fits ==> top.elems().len() + width % 2 + parents::<E, A>(
                    cur,
                    level as nat,
                ).len() <= top.capacity());
            }
            let next = match hash_level::<E, A, K>(&mut top, start, width, level, Ghost(cur)) {
                Ok(v) => v,
                Err(e) => return Err(e),
            };
            let padded = width + width % 2;
            let ghost mid = top.elems();
            match push_all(&mut top, &next) {
                Ok(()) => {},
                Err(e) => return Err(e),
            }
            proof {
                let old_prefix = mid.subrange(0, start as int);
                let up = parents::<E, A>(cur, level as nat);
                assert(top.elems() == old_prefix + pad(cur) + up);
                assert(top.elems().subrange(0, start + padded) =~= old_prefix + pad(cur));
                assert(top.elems().subrange(start + padded, start + padded + up.len()) =~= up);
                assert(old_prefix + pad(cur) + tree_from::<E, A>(up, level as nat + 1) =~= old_prefix
                    + tree_from::<E, A>(cur, level as nat));
                cur = up;
            }
            start = start + padded;
            width = next.len();
            level = level + 1;
        }
        proof {
            assert(top.elems() =~= target);
            lemma_root_step::<E, A>(l, 0);
            top.lemma_inv();
            lemma_tree_len::<E, A>(l, 0);
        }
        let root = match top.read_at(top.len() - 1) {
            Ok(e) => e,
            Err(e) => return Err(e),
        };
        let t = MerkleTree {
            leaves: Some(lv),
            leaves_len: leafs + leafs % 2,
            top_half: top,
            leafs,
            height: level + 1,
            root,
            cached_from: 0,
            leaf_seq: Ghost(l),
            alg: PhantomData,
        };
        proof {
            assert(target.subrange(0, target.len() as int) =~= target);
            lemma_tree_len::<E, A>(parents::<E, A>(l, 0), 1);
        }
        Ok(t)
    }

    /// Appends to `lemma` the siblings met from position `j` of the level
    /// `cur` (at level `h`, starting at node `base`) up to the root, and to
    /// `path` the matching left/right bits.
    #[verifier::rlimit(40)]
    fn collect_siblings(
        &self,
        lemma: &mut Vec<E>,
        path: &mut Vec<bool>,
        from: usize,
        from_width: usize,
        from_j: usize,
        Ghost(from_level): Ghost<Seq<Seq<u8>>>,
        Ghost(from_h): Ghost<nat>,
    ) -> (r: Result<(), MerkleError>)
        requires
            self.wf(),
            from <= self.elems().len(),
            self.elems().subrange(from as int, self.elems().len() as int) == tree_from::<E, A>(
                from_level,
                from_h,
            ),
            from_level.len() >= 1,
            from_j < from_level.len(),
            from_width == pad(from_level).len(),
        ensures
            (forall|k: int| from <= k < self.elems().len() ==> #[trigger] self.readable(k)) ==> r is Ok,
            r is Ok ==> bytes_of(final(lemma)@) == bytes_of(old(lemma)@) + siblings::<E, A>(
                from_level,
                from_j as nat,
                from_h,
            ) && final(path)@ == old(path)@ + path_bits(from_level.len(), from_j as nat),
            r is Err ==> r->Err_0 is OutOfCachedRange,
    {
        let total = self.len();
        let mut base = from;
        let mut width = from_width;
        let mut j = from_j;
        let ghost mut cur = from_level;
        let ghost mut h = from_h;
        let ghost base0 = from;
        let ghost cur0 = from_level;
        let ghost j0 = from_j as nat;
        let ghost h0 = from_h;
        let ghost all_ok = forall|k: int| base0 <= k < total ==> #[trigger] self.readable(k);
        proof {
            assert(bytes_of(lemma@) + siblings::<E, A>(cur, j as nat, h) =~= bytes_of(old(lemma)@)
                + siblings::<E, A>(cur, j as nat, h));
            assert(path@ + path_bits(cur.len(), j as nat) =~= old(path)@ + path_bits(
                cur.len(),
                j as nat,
            ));
        }
        while total - base > 1
            invariant
                self.wf(),
                total == self.elems().len(),
                base0 == from,
                cur0 == from_level,
                j0 == from_j,
                h0 == from_h,
                base0 <= base <= total,
                self.elems().subrange(base as int, total as int) == tree_from::<E, A>(cur, h),
                cur.len() >= 1,
                j < cur.len(),
                width == pad(cur).len(),
                bytes_of(lemma@) + siblings::<E, A>(cur, j as nat, h) == bytes_of(old(lemma)@)
                    + siblings::<E, A>(cur0, j0, h0),
                path@ + path_bits(cur.len(), j as nat) == old(path)@ + path_bits(cur0.len(), j0),
                all_ok == (forall|k: int| base0 <= k < total ==> #[trigger] self.readable(k)),
            decreases total - base,
        {
            proof {
                lemma_tree_len::<E, A>(cur, h);
                lemma_tree_len_ge(cur.len());
                lemma_parents_len::<E, A>(cur, h);
                assert(cur.len() > 1);
                lemma_tree_len::<E, A>(parents::<E, A>(cur, h), h + 1);
                lemma_tree_len_ge(parents::<E, A>(cur, h).len());
            }
            let sib = if j % 2 == 0 {
                j + 1
            } else {
                j - 1
            };
            proof {
                assert(sib < width);
                assert(base + sib < total);
                if all_ok {
                    assert(self.readable((base + sib) as int));
                }
            }
            let node = match self.read_at(base + sib) {
                Ok(e) => e,
                Err(e) => return Err(e),
            };
            let ghost old_lemma = bytes_of(lemma@);
            let ghost old_path = path@;
            lemma.push(node);
            path.push(j % 2 == 0);
            proof {
                let up = parents::<E, A>(cur, h);
                assert(tree_from::<E, A>(cur, h) == pad(cur) + tree_from::<E, A>(up, h + 1));
                assert(sib == sibling(j as nat));
                let t = self.elems().subrange(base as int, total as int);
                assert(sib < pad(cur).len());
                assert(t[sib as int] == self.elems()[base + sib]);
                assert(self.elems()[base + sib] == pad(cur)[sib as int]);
                assert(bytes_of(lemma@) =~= old_lemma.push(node.bytes()));
                assert(bytes_of(lemma@) + siblings::<E, A>(up, (j / 2) as nat, h + 1) =~= old_lemma
                    + siblings::<E, A>(cur, j as nat, h));
                assert(path@ + path_bits(up.len(), (j / 2) as nat) =~= old_path + path_bits(
                    cur.len(),
                    j as nat,
                ));
                assert(t.subrange(width as int, t.len() as int) =~= tree_from::<E, A>(up, h + 1));
                assert(self.elems().subrange(base + width, total as int) =~= t.subrange(
                    width as int,
                    t.len() as int,
                ));
                cur = up;
                h = h + 1;
            }
            base = base + width;
            width = width / 2;
            if width % 2 == 1 {
                width = width + 1;
            }
            j = j / 2;
        }
        proof {
            lemma_tree_len::<E, A>(cur, h);
            lemma_tree_len_ge(cur.len());
            assert(cur.len() == 1);
            assert(siblings::<E, A>(cur, j as nat, h) =~= Seq::<Seq<u8>>::empty());
            assert(path_bits(cur.len(), j as nat) =~= Seq::<bool>::empty());
            assert(bytes_of(lemma@) =~= bytes_of(lemma@) + Seq::<Seq<u8>>::empty());
            assert(path@ =~= path@ + Seq::<bool>::empty());
        }
        Ok(())
    }

    /// Generates the inclusion proof of leaf `i`: the leaf, its siblings
    /// from the bottom and the root, with one left/right bit per level.
    /// Fails on a compacted tree when a sibling was dropped.
    pub fn gen_proof(&self, i: usize) -> (r: Result<Proof<E>, MerkleError>)
        requires
            self.wf(),
        ensures
            i >= self.leaf_seq().len() ==> r == Err::<Proof<E>, MerkleError>(
                MerkleError::OutOfBounds { index: i, len: self.leaf_seq().len() as usize },
            ),
            i < self.leaf_seq().len() && self.is_full() ==> r is Ok,
            r is Ok ==> i < self.leaf_seq().len() && r->Ok_0.lemma_bytes() == proof_lemma::<E, A>(
                self.leaf_seq(),
                i as nat,
            ) && r->Ok_0.path_bits() == path_bits(self.leaf_seq().len(), i as nat),
            r is Err && i < self.leaf_seq().len() ==> r->Err_0 is OutOfCachedRange,
    {
        if i >= self.leafs {
            return Err(MerkleError::OutOfBounds { index: i, len: self.leafs });
        }
        let ghost l = self.leaf_seq();
        let mut lemma: Vec<E> = Vec::new();
        let mut path: Vec<bool> = Vec::new();
        let first = match self.read_at(i) {
            Ok(e) => e,
            Err(e) => return Err(e),
        };
        lemma.push(first);
        let mut width: usize = self.leafs;
        if width % 2 == 1 {
            width = width + 1;
        }
        proof {
            assert(self.elems().subrange(0, self.elems().len() as int) =~= self.elems());
            assert(self.elems()[i as int] == pad(l)[i as int]);
            assert(bytes_of(lemma@) =~= seq![l[i as int]]);
        }
        match self.collect_siblings(&mut lemma, &mut path, 0, width, i, Ghost(l), Ghost(0)) {
            Ok(()) => {},
            Err(e) => return Err(e),
        }
        lemma.push(self.root());
        proof {
            assert(bytes_of(lemma@) =~= proof_lemma::<E, A>(l, i as nat));
            assert(path@ =~= path_bits(l.len(), i as nat));
        }
        Ok(Proof::new(lemma, path))
    }

    /// The root of the tree.
    pub fn root(&self) -> (r: E)
        requires
            self.wf(),
        ensures
            r.bytes() == root_of::<E, A>(self.leaf_seq()),
    {
        self.root
    }

    /// Number of nodes in the tree, dropped ones included.
    pub fn len(&self) -> (r: usize)
        requires
            self.wf(),
        ensures
            r == self.elems().len(),
    {
        proof {
            lemma_tree_len::<E, A>(parents::<E, A>(self.leaf_seq@, 0), 1);
        }
        self.leaves_len + self.cached_from + self.top_half.len()
    }

    /// Whether the tree holds no node (never, once built).
    pub fn is_empty(&self) -> (r: bool)
        requires
            self.wf(),
        ensures
            r == (self.elems().len() == 0),
    {
        self.len() == 0
    }

    /// Number of levels, leaves and root included.
    pub fn height(&self) -> (r: usize)
        requires
            self.wf(),
        ensures
            r == height_from(self.leaf_seq().len()),
    {
        self.height
    }

    /// Number of leaves the tree was built over.
    pub fn leafs(&self) -> (r: usize)
        requires
            self.wf(),
        ensures
            r == self.leaf_seq().len(),
    {
        self.leafs
    }

    /// The node at position `i` (leaves first, then each level above).
    pub fn read_at(&self, i: usize) -> (r: Result<E, MerkleError>)
        requires
            self.wf(),
        ensures
            i < self.elems().len() && self.readable(i as int) ==> r is Ok && r->Ok_0.bytes()
                == self.elems()[i as int],
            i < self.elems().len() && !self.readable(i as int) ==> r == Err::<E, MerkleError>(
                MerkleError::OutOfCachedRange { index: i },
            ),
            i >= self.elems().len() ==> r == Err::<E, MerkleError>(
                MerkleError::OutOfBounds { index: i, len: self.elems().len() as usize },
            ),
    {
        let total = self.len();
        let ll = self.leaves_len;
        if i < ll {
            match &self.leaves {
                Some(s) => s.read_at(i),
                None => Err(MerkleError::OutOfCachedRange { index: i }),
            }
        } else if i >= total {
            Err(MerkleError::OutOfBounds { index: i, len: total })
        } else if i - ll < self.cached_from {
            Err(MerkleError::OutOfCachedRange { index: i })
        } else {
            self.top_half.read_at(i - ll - self.cached_from)
        }
    }

    /// Copies the bytes of the node at position `pos` into `buf`.
    pub fn read_into(&self, pos: usize, buf: &mut [u8]) -> (r: Result<(), MerkleError>)
        requires
            self.wf(),
            old(buf)@.len() == E::width(),
        ensures
            pos < self.elems().len() && self.readable(pos as int) ==> r is Ok && final(buf)@
                == self.elems()[pos as int],
            pos < self.elems().len() && !self.readable(pos as int) ==> r == Err::<(), MerkleError>(
                MerkleError::OutOfCachedRange { index: pos },
            ) && final(buf)@ == old(buf)@,
            pos >= self.elems().len() ==> r == Err::<(), MerkleError>(
                MerkleError::OutOfBounds { index: pos, len: self.elems().len() as usize },
            ) && final(buf)@ == old(buf)@,
    {
        let total = self.len();
        let ll = self.leaves_len;
        if pos < ll {
            match &self.leaves {
                Some(s) => s.read_into(pos, buf),
                None => Err(MerkleError::OutOfCachedRange { index: pos }),
            }
        } else if pos >= total {
            Err(MerkleError::OutOfBounds { index: pos, len: total })
        } else if pos - ll < self.cached_from {
            Err(MerkleError::OutOfCachedRange { index: pos })
        } else {
            self.top_half.read_into(pos - ll - self.cached_from, buf)
        }
    }

    /// The nodes at positions `start..end`, across both stores if needed.
    pub fn read_range(&self, start: usize, end: usize) -> (r: Result<Vec<E>, MerkleError>)
        requires
            self.wf(),
        ensures
            start <= end <= self.elems().len() && (forall|k: int| start <= k < end ==> #[trigger] self.readable(k))
                ==> r is Ok && bytes_of(r->Ok_0@) == self.elems().subrange(start as int, end as int),
            start <= end <= self.elems().len() && (exists|k: int| start <= k < end && !#[trigger] self.readable(k))
                ==> r is Err && r->Err_0 is OutOfCachedRange,
            end > self.elems().len() ==> r == Err::<Vec<E>, MerkleError>(
                MerkleError::OutOfBounds { index: end, len: self.elems().len() as usize },
            ),
            end <= self.elems().len() && start > end ==> r == Err::<Vec<E>, MerkleError>(
                MerkleError::OutOfBounds { index: start, len: end },
            ),
    {
        let total = self.len();
        if end > total {
            return Err(MerkleError::OutOfBounds { index: end, len: total });
        }
        if start > end {
            return Err(MerkleError::OutOfBounds { index: start, len: end });
        }
        if start == end {
            let empty: Vec<E> = Vec::new();
            proof {
                assert(bytes_of(empty@) =~= self.elems().subrange(start as int, end as int));
            }
            return Ok(empty);
        }
        let ll = self.leaves_len;
        let cb = ll + self.cached_from;
        proof {
            lemma_tree_len::<E, A>(parents::<E, A>(self.leaf_seq@, 0), 1);
        }
        if start < ll && self.leaves.is_none() {
            proof {
                assert(!self.readable(start as int));
            }
            return Err(MerkleError::OutOfCachedRange { index: start });
        }
        if end <= ll {
            return match &self.leaves {
                Some(s) => s.read_range(start, end),
                None => Err(MerkleError::OutOfCachedRange { index: start }),
            };
        }
        let first_dropped = if start > ll {
            start
        } else {
            ll
        };
        if first_dropped < cb && first_dropped < end {
            proof {
                assert(!self.readable(first_dropped as int));
            }
            return Err(MerkleError::OutOfCachedRange { index: first_dropped });
        }
        proof {
            assert forall|k: int| start <= k < end implies #[trigger] self.readable(k) by {}
        }
        if start >= ll {
            let r = self.top_half.read_range(start - cb, end - cb);
            proof {
                if r is Ok {
                    assert(bytes_of(r->Ok_0@) =~= self.elems().subrange(start as int, end as int));
                }
            }
            r
        } else {
            let leaves = match &self.leaves {
                Some(s) => s,
                None => return Err(MerkleError::OutOfCachedRange { index: start }),
            };
            let mut joined = match leaves.read_range(start, ll) {
                Ok(v) => v,
                Err(e) => return Err(e),
            };
            let upper = match self.top_half.read_range(0, end - ll) {
                Ok(v) => v,
                Err(e) => return Err(e),
            };
            let ghost first = joined@;
            let mut k: usize = 0;
            while k < upper.len()
                invariant
                    k <= upper@.len(),
                    joined@ == first + upper@.subrange(0, k as int),
                decreases upper@.len() - k,
            {
                joined.push(upper[k]);
                k = k + 1;
                proof {
                    assert(joined@ =~= first + upper@.subrange(0, k as int));
                }
            }
            proof {
                assert(upper@.subrange(0, upper@.len() as int) =~= upper@);
                assert(bytes_of(joined@) =~= bytes_of(first) + bytes_of(upper@));
                assert(self.elems().subrange(start as int, end as int) =~= leaves.elems().subrange(
                    start as int,
                    ll as int,
                ) + self.top_half.elems().subrange(0, end - ll));
                assert(bytes_of(joined@) =~= self.elems().subrange(start as int, end as int));
            }
            Ok(joined)
        }
    }

    /// The level of the partial trees' roots and the number of leaves
    /// under each, when partial-tree proofs with `levels` cached levels fit.
    fn window(&self, levels: usize) -> (r: Option<(usize, usize)>)
        requires
            self.wf(),
        ensures
            r is Some <==> partial_fits(self.leaf_seq().len(), levels as nat),
            r is Some ==> r->Some_0.0 == window_level(self.leaf_seq().len(), levels as nat) && r->Some_0.1
                == window_len(self.leaf_seq().len(), levels as nat) && 2 <= r->Some_0.1 <= self.leaf_seq().len(),
    {
        let n = self.leafs;
        if !is_power_of_two(n) {
            return None;
        }
        proof {
            lemma_height_bounds(n as nat);
        }
        if self.height < 2 || levels > self.height - 2 {
            return None;
        }
        let m = self.height - 1 - levels;
        proof {
            lemma_pow2_height(n as nat, m as nat);
            lemma_pow2_of(m as nat);
            if m >= 1 {
                assert(pow2_of(m as nat) == 2 * pow2_of((m - 1) as nat));
                lemma_pow2_of((m - 1) as nat);
            }
        }
        let q = pow2_upto(m, n);
        Some((m, q))
    }

    /// Whether `partial` is the tree over the `q` leaves from `start` on.
    fn covers_window(
        &self,
        partial: &MerkleTree<E, A, VecStore<E>>,
        start: usize,
        q: usize,
        Ghost(levels): Ghost<nat>,
        Ghost(i): Ghost<nat>,
    ) -> (r: bool)
        requires
            self.wf(),
            partial.wf(),
            partial.is_full(),
            self.has_base(),
            is_pow2(self.leaf_seq().len()),
            start + q <= self.leaf_seq().len(),
            window_of(self.leaf_seq(), levels, i) == self.leaf_seq().subrange(start as int, start + q),
        ensures
            r == (partial.leaf_seq() == window_of(self.leaf_seq(), levels, i)),
    {
        let ghost l = self.leaf_seq();
        let ghost w = l.subrange(start as int, start + q);
        if partial.leafs() != q {
            return false;
        }
        let ghost p = partial.leaf_seq();
        proof {
            assert(pad(l) == l);
            assert(partial.elems() == pad(p) + tree_from::<E, A>(parents::<E, A>(p, 0), 1));
        }
        let mut k: usize = 0;
        while k < q
            invariant
                self.wf(),
                partial.wf(),
                l == self.leaf_seq(),
                p == partial.leaf_seq(),
                w == l.subrange(start as int, start + q),
                window_of(l, levels, i) == w,
                pad(l) == l,
                self.has_base(),
                partial.is_full(),
                self.elems() == pad(l) + tree_from::<E, A>(parents::<E, A>(l, 0), 1),
                partial.elems() == pad(p) + tree_from::<E, A>(parents::<E, A>(p, 0), 1),
                p.len() == q,
                start + q <= l.len(),
                k <= q,
                forall|t: int| 0 <= t < k ==> #[trigger] p[t] == w[t],
            decreases q - k,
        {
            proof {
                assert(start + k < pad(l).len());
                assert(start + k < self.elems().len());
                assert(self.readable((start + k) as int));
                assert(self.elems()[start + k] == l[start + k]);
            }
            let mine = match self.read_at(start + k) {
                Ok(e) => e,
                Err(_) => return false,
            };
            let theirs = match partial.read_at(k) {
                Ok(e) => e,
                Err(_) => return false,
            };
            proof {
                assert(pad(p)[k as int] == p[k as int]);
                assert(partial.elems()[k as int] == p[k as int]);
            }
            if !mine.same_bytes(&theirs) {
                proof {
                    assert(p[k as int] != w[k as int]);
                }
                return false;
            }
            k = k + 1;
        }
        proof {
            assert(p =~= w);
        }
        true
    }

    /// Proof of leaf `i` that takes the siblings inside its window from
    /// `partial`, the partial tree over that window, and the others from
    /// this tree's kept levels.
    pub fn gen_proof_with_partial_tree(
        &self,
        i: usize,
        levels: usize,
        partial: &MerkleTree<E, A, VecStore<E>>,
    ) -> (r: Result<Proof<E>, MerkleError>)
        requires
            self.wf(),
            partial.wf(),
            partial.is_full(),
        ensures
            i >= self.leaf_seq().len() ==> r == Err::<Proof<E>, MerkleError>(
                MerkleError::OutOfBounds { index: i, len: self.leaf_seq().len() as usize },
            ),
            i < self.leaf_seq().len() && !partial_fits(self.leaf_seq().len(), levels as nat) ==> r
                == Err::<Proof<E>, MerkleError>(MerkleError::InvalidCacheLevels { levels }),
            i < self.leaf_seq().len() && partial_fits(self.leaf_seq().len(), levels as nat)
                && !self.has_base() ==> r is Err && r->Err_0 is OutOfCachedRange,
            i < self.leaf_seq().len() && partial_fits(self.leaf_seq().len(), levels as nat)
                && self.has_base() && partial.leaf_seq() != window_of(
                self.leaf_seq(),
                levels as nat,
                i as nat,
            ) ==> r == Err::<Proof<E>, MerkleError>(MerkleError::PartialTreeMismatch),
            i < self.leaf_seq().len() && partial_fits(self.leaf_seq().len(), levels as nat)
                && self.has_base() && partial.leaf_seq() == window_of(
                self.leaf_seq(),
                levels as nat,
                i as nat,
            ) && self.cache_base() <= cache_start(self.leaf_seq().len(), levels as nat) ==> r is Ok,
            r is Ok ==> i < self.leaf_seq().len() && r->Ok_0.lemma_bytes() == proof_lemma::<E, A>(
                self.leaf_seq(),
                i as nat,
            ) && r->Ok_0.path_bits() == path_bits(self.leaf_seq().len(), i as nat),
    {
        if i >= self.leafs {
            return Err(MerkleError::OutOfBounds { index: i, len: self.leafs });
        }
        let (m, q) = match self.window(levels) {
            Some(w) => w,
            None => return Err(MerkleError::InvalidCacheLevels { levels }),
        };
        let ghost l = self.leaf_seq();
        let n = self.leafs;
        let a = i / q;
        proof {
            lemma_pow2_of(m as nat);
            lemma_pow2_divides(q as nat, n as nat);
            lemma_window_position(i as nat, q as nat, n as nat);
        }
        let pi = i - a * q;
        if self.leaves.is_none() {
            return Err(MerkleError::OutOfCachedRange { index: a * q });
        }
        if !self.covers_window(partial, a * q, q, Ghost(levels as nat), Ghost(i as nat)) {
            return Err(MerkleError::PartialTreeMismatch);
        }
        proof {
            assert(partial.leaf_seq().len() == q);
            assert(pi < q);
        }
        let lower = match partial.gen_proof(pi) {
            Ok(p) => p,
            Err(e) => return Err(e),
        };
        let mut lemma: Vec<E> = Vec::new();
        let lower_lemma = lower.lemma();
        let mut k: usize = 0;
        let ghost seg = partial.leaf_seq();
        proof {
            lemma_siblings_len::<E, A>(seg, pi as nat, 0);
            assert(bytes_of(lower_lemma@).len() == lower_lemma@.len());
        }
        let keep = lower_lemma.len() - 1;
        while k < keep
            invariant
                bytes_of(lower_lemma@) == proof_lemma::<E, A>(seg, pi as nat),
                keep + 1 == lower_lemma@.len(),
                k <= keep,
                lower_lemma@.len() >= 2,
                bytes_of(lemma@) == bytes_of(lower_lemma@).subrange(0, k as int),
            decreases lower_lemma@.len() - k,
        {
            let ghost before = lemma@;
            lemma.push(lower_lemma[k]);
            proof {
                assert(bytes_of(lemma@) =~= bytes_of(before).push(lower_lemma@[k as int].bytes()));
                assert(bytes_of(lemma@) =~= bytes_of(lower_lemma@).subrange(0, k + 1));
            }
            k = k + 1;
        }
        let mut path: Vec<bool> = lower.path().clone();
        proof {
            assert(path@ == lower.path_bits());
        }
        let ghost upper_level = level_up::<E, A>(l, 0, m as nat);
        proof {
            lemma_siblings_split::<E, A>(l, 0, q as nat, a as nat, i as nat);
            lemma_level_suffix::<E, A>(l, 0, m as nat);
            lemma_tree_len::<E, A>(l, 0);
            lemma_pow2_divides(q as nat, n as nat);
            assert(upper_level.len() == n / q);
            lemma_parents_len::<E, A>(upper_level, m as nat);
            assert((a + 1) * q == a * q + q) by (nonlinear_arith);
        }
        let base = level_start(n, m);
        let nq = n / q;
        let width = if nq % 2 == 1 {
            nq + 1
        } else {
            nq
        };
        proof {
            assert(forall|k: int| base <= k < self.elems().len() && self.cache_base() <= base ==> #[trigger] self.readable(k));
        }
        let ghost lower_part = bytes_of(lemma@);
        match self.collect_siblings(&mut lemma, &mut path, base, width, a, Ghost(upper_level), Ghost(m as nat)) {
            Ok(()) => {},
            Err(e) => return Err(e),
        }
        let ghost mid = bytes_of(lemma@);
        let root = self.root();
        lemma.push(root);
        proof {
            assert(bytes_of(lemma@) =~= mid.push(root.bytes()));
            assert(log2(q as nat) == m);
            assert(mid == lower_part + siblings::<E, A>(upper_level, a as nat, m as nat));
            let w = l.subrange((a * q) as int, ((a + 1) * q) as int);
            assert(seg == w);
            assert(lower_part =~= seq![w[pi as int]] + siblings::<E, A>(w, pi as nat, 0));
            assert(w[pi as int] == l[i as int]);
            assert(bytes_of(lemma@) =~= proof_lemma::<E, A>(l, i as nat));
            assert(path@ =~= path_bits(n as nat, i as nat));
        }
        Ok(Proof::new(lemma, path))
    }

    /// Proof of leaf `i`, built from the partial tree over the window of
    /// leaves that holds it (rebuilt from the leaves) and from this tree's
    /// kept levels. The partial tree is returned for further proofs under
    /// the same window.
    pub fn gen_proof_and_partial_tree(&self, i: usize, levels: usize) -> (r: Result<
        ProofAndTree<E, A>,
        MerkleError,
    >)
        requires
            self.wf(),
        ensures
            i >= self.leaf_seq().len() ==> r == Err::<ProofAndTree<E, A>, MerkleError>(
                MerkleError::OutOfBounds { index: i, len: self.leaf_seq().len() as usize },
            ),
            i < self.leaf_seq().len() && !partial_fits(self.leaf_seq().len(), levels as nat) ==> r
                == Err::<ProofAndTree<E, A>, MerkleError>(MerkleError::InvalidCacheLevels { levels }),
            i < self.leaf_seq().len() && partial_fits(self.leaf_seq().len(), levels as nat)
                && !self.has_base() ==> r is Err && r->Err_0 is OutOfCachedRange,
            i < self.leaf_seq().len() && partial_fits(self.leaf_seq().len(), levels as nat)
                && self.has_base() && self.cache_base() <= cache_start(
                self.leaf_seq().len(),
                levels as nat,
            ) ==> r is Ok,
            r is Ok ==> i < self.leaf_seq().len() && r->Ok_0.proof.lemma_bytes() == proof_lemma::<E, A>(
                self.leaf_seq(),
                i as nat,
            ) && r->Ok_0.proof.path_bits() == path_bits(self.leaf_seq().len(), i as nat)
                && r->Ok_0.merkle_tree.wf() && r->Ok_0.merkle_tree.is_full()
                && r->Ok_0.merkle_tree.leaf_seq() == window_of(self.leaf_seq(), levels as nat, i as nat),
    {
        if i >= self.leafs {
            return Err(MerkleError::OutOfBounds { index: i, len: self.leafs });
        }
        let (m, q) = match self.window(levels) {
            Some(w) => w,
            None => return Err(MerkleError::InvalidCacheLevels { levels }),
        };
        let ghost l = self.leaf_seq();
        let n = self.leafs;
        proof {
            lemma_pow2_of(m as nat);
            lemma_pow2_divides(q as nat, n as nat);
            lemma_window_position(i as nat, q as nat, n as nat);
        }
        let start = (i / q) * q;
        let leaves = match &self.leaves {
            Some(s) => s,
            None => return Err(MerkleError::OutOfCachedRange { index: start }),
        };
        let seg = match leaves.read_range(start, start + q) {
            Ok(v) => v,
            Err(e) => return Err(e),
        };
        proof {
            assert(pad(l) == l);
            assert(bytes_of(seg@) == window_of(l, levels as nat, i as nat));
            lemma_pow2_tree_len(q as nat);
            lemma_pow2_tree_len(n as nat);
            assert(tree_len(q as nat) * E::width() <= tree_len(n as nat) * E::width()) by (nonlinear_arith)
                requires
                    tree_len(q as nat) <= tree_len(n as nat),
            ;
            E::lemma_bytes_len(arbitrary());
            assert(tree_len(q as nat) <= tree_len(q as nat) * E::width()) by (nonlinear_arith)
                requires
                    E::width() >= 1,
            ;
        }
        let leaves = VecStore(seg);
        let top: VecStore<E> = VecStore(Vec::new());
        proof {
            assert(top.elems() =~= Seq::<Seq<u8>>::empty());
        }
        let partial = match MerkleTree::<E, A, VecStore<E>>::build(leaves, top, q) {
            Ok(t) => t,
            Err(e) => return Err(e),
        };
        let proof = match self.gen_proof_with_partial_tree(i, levels, &partial) {
            Ok(p) => p,
            Err(e) => return Err(e),
        };
        Ok(ProofAndTree { proof, merkle_tree: partial })
    }

    /// The leaves `start..end` of the window that holds leaf `i`, for
    /// partial trees with `levels` cached levels.
    pub fn window_range(&self, i: usize, levels: usize) -> (r: Result<(usize, usize), MerkleError>)
        requires
            self.wf(),
        ensures
            i >= self.leaf_seq().len() ==> r == Err::<(usize, usize), MerkleError>(
                MerkleError::OutOfBounds { index: i, len: self.leaf_seq().len() as usize },
            ),
            i < self.leaf_seq().len() && !partial_fits(self.leaf_seq().len(), levels as nat) ==> r
                == Err::<(usize, usize), MerkleError>(MerkleError::InvalidCacheLevels { levels }),
            i < self.leaf_seq().len() && partial_fits(self.leaf_seq().len(), levels as nat) ==> r is Ok
                && self.leaf_seq().subrange(r->Ok_0.0 as int, r->Ok_0.1 as int) == window_of(
                self.leaf_seq(),
                levels as nat,
                i as nat,
            ) && r->Ok_0.0 <= i < r->Ok_0.1 <= self.leaf_seq().len(),
    {
        if i >= self.leafs {
            return Err(MerkleError::OutOfBounds { index: i, len: self.leafs });
        }
        let (m, q) = match self.window(levels) {
            Some(w) => w,
            None => return Err(MerkleError::InvalidCacheLevels { levels }),
        };
        proof {
            lemma_pow2_of(m as nat);
            lemma_pow2_divides(q as nat, self.leafs as nat);
            lemma_window_position(i as nat, q as nat, self.leafs as nat);
        }
        let start = (i / q) * q;
        Ok((start, start + q))
    }

    /// Proof of leaf `i` from the leaves of its window as handed in by the
    /// caller (read, say, from a copy of the base layer kept elsewhere):
    /// the partial tree over them is rebuilt, its root is checked against
    /// the kept node above the window, and the siblings above come from this
    /// tree. Whatever leaves are handed in, a proof that comes back
    /// validates and ends at this tree's root; with the window's true
    /// leaves it is the proof of leaf `i`.
    pub fn gen_proof_and_partial_tree_from_window(&self, i: usize, levels: usize, window: &[E]) -> (r: Result<
        ProofAndTree<E, A>,
        MerkleError,
    >)
        requires
            self.wf(),
        ensures
            i >= self.leaf_seq().len() ==> r == Err::<ProofAndTree<E, A>, MerkleError>(
                MerkleError::OutOfBounds { index: i, len: self.leaf_seq().len() as usize },
            ),
            i < self.leaf_seq().len() && !partial_fits(self.leaf_seq().len(), levels as nat) ==> r
                == Err::<ProofAndTree<E, A>, MerkleError>(MerkleError::InvalidCacheLevels { levels }),
            i < self.leaf_seq().len() && partial_fits(self.leaf_seq().len(), levels as nat)
                && window@.len() != window_len(self.leaf_seq().len(), levels as nat) ==> r == Err::<
                ProofAndTree<E, A>,
                MerkleError,
            >(MerkleError::PartialTreeMismatch),
            i < self.leaf_seq().len() && partial_fits(self.leaf_seq().len(), levels as nat)
                && bytes_of(window@) == window_of(self.leaf_seq(), levels as nat, i as nat)
                && self.cache_base() <= cache_start(self.leaf_seq().len(), levels as nat) ==> r is Ok
                && r->Ok_0.proof.lemma_bytes() == proof_lemma::<E, A>(self.leaf_seq(), i as nat),
            r is Ok ==> proof_valid::<E, A>(r->Ok_0.proof.lemma_bytes(), r->Ok_0.proof.path_bits())
                && r->Ok_0.proof.lemma_bytes().last() == root_of::<E, A>(self.leaf_seq())
                && r->Ok_0.proof.path_bits() == path_bits(self.leaf_seq().len(), i as nat)
                && r->Ok_0.merkle_tree.wf() && r->Ok_0.merkle_tree.is_full()
                && r->Ok_0.merkle_tree.leaf_seq() == bytes_of(window@),
    {
        if i >= self.leafs {
            return Err(MerkleError::OutOfBounds { index: i, len: self.leafs });
        }
        let (m, q) = match self.window(levels) {
            Some(w) => w,
            None => return Err(MerkleError::InvalidCacheLevels { levels }),
        };
        let ghost l = self.leaf_seq();
        let n = self.leafs;
        proof {
            lemma_pow2_of(m as nat);
            lemma_pow2_divides(q as nat, n as nat);
            lemma_window_position(i as nat, q as nat, n as nat);
            assert(window_of(l, levels as nat, i as nat).len() == q);
            assert(bytes_of(window@).len() == window@.len());
            lemma_pow2_tree_len(q as nat);
            lemma_pow2_tree_len(n as nat);
            assert(tree_len(q as nat) * E::width() <= tree_len(n as nat) * E::width()) by (nonlinear_arith)
                requires
                    tree_len(q as nat) <= tree_len(n as nat),
            ;
        }
        if window.len() != q {
            return Err(MerkleError::PartialTreeMismatch);
        }
        let a = i / q;
        let pi = i - a * q;
        let leaves = VecStore(slice_to_vec(window));
        let top: VecStore<E> = VecStore(Vec::new());
        proof {
            assert(top.elems() =~= Seq::<Seq<u8>>::empty());
        }
        let partial = match MerkleTree::<E, A, VecStore<E>>::build(leaves, top, q) {
            Ok(t) => t,
            Err(e) => return Err(e),
        };
        let ghost w = bytes_of(window@);
        let lower = match partial.gen_proof(pi) {
            Ok(p) => p,
            Err(e) => return Err(e),
        };
        let ghost upper_level = level_up::<E, A>(l, 0, m as nat);
        proof {
            lemma_level_suffix::<E, A>(l, 0, m as nat);
            lemma_tree_len::<E, A>(l, 0);
            lemma_siblings_split::<E, A>(l, 0, q as nat, a as nat, i as nat);
            lemma_parents_len::<E, A>(upper_level, m as nat);
        }
        let base = level_start(n, m);
        proof {
            let t = tree_from::<E, A>(upper_level, m as nat);
            assert(self.elems().subrange(base as int, self.elems().len() as int) == t);
            assert(t == pad(upper_level) + tree_from::<E, A>(parents::<E, A>(upper_level, m as nat), m as nat + 1)
                || upper_level.len() <= 1);
            assert(t[a as int] == upper_level[a as int]);
            assert(self.elems()[base + a] == t[a as int]);
        }
        let above = match self.read_at(base + a) {
            Ok(e) => e,
            Err(e) => return Err(e),
        };
        let partial_root = partial.root();
        if !partial_root.same_bytes(&above) {
            proof {
                if w == window_of(l, levels as nat, i as nat) {
                    lemma_window_root::<E, A>(l, 0, q as nat, a as nat);
                }
            }
            return Err(MerkleError::PartialTreeMismatch);
        }
        let mut lemma: Vec<E> = Vec::new();
        let lower_lemma = lower.lemma();
        let mut k: usize = 0;
        proof {
            lemma_siblings_len::<E, A>(w, pi as nat, 0);
            assert(bytes_of(lower_lemma@).len() == lower_lemma@.len());
        }
        let keep = lower_lemma.len() - 1;
        while k < keep
            invariant
                bytes_of(lower_lemma@) == proof_lemma::<E, A>(w, pi as nat),
                keep + 1 == lower_lemma@.len(),
                k <= keep,
                bytes_of(lemma@) == bytes_of(lower_lemma@).subrange(0, k as int),
            decreases lower_lemma@.len() - k,
        {
            let ghost before = lemma@;
            lemma.push(lower_lemma[k]);
            proof {
                assert(bytes_of(lemma@) =~= bytes_of(before).push(lower_lemma@[k as int].bytes()));
                assert(bytes_of(lemma@) =~= bytes_of(lower_lemma@).subrange(0, k + 1));
            }
            k = k + 1;
        }
        let mut path: Vec<bool> = lower.path().clone();
        let nq = n / q;
        let width = if nq % 2 == 1 {
            nq + 1
        } else {
            nq
        };
        let ghost lower_part = bytes_of(lemma@);
        let ghost lower_path = path@;
        match self.collect_siblings(&mut lemma, &mut path, base, width, a, Ghost(upper_level), Ghost(m as nat)) {
            Ok(()) => {},
            Err(e) => return Err(e),
        }
        let ghost mid = bytes_of(lemma@);
        let root = self.root();
        lemma.push(root);
        proof {
            assert(bytes_of(lemma@) =~= mid.push(root.bytes()));
            assert(log2(q as nat) == m);
            assert(lower_part =~= seq![w[pi as int]] + siblings::<E, A>(w, pi as nat, 0));
            let sib_w = siblings::<E, A>(w, pi as nat, 0);
            let pb_w = path_bits(q as nat, pi as nat);
            let sib_up = siblings::<E, A>(upper_level, a as nat, m as nat);
            let pb_up = path_bits(upper_level.len(), a as nat);
            assert(lower_path == pb_w);
            lemma_siblings_len::<E, A>(w, pi as nat, 0);
            lemma_height_log2(q as nat, q as nat);
            assert(pb_w.len() == m);
            lemma_siblings_len::<E, A>(upper_level, a as nat, m as nat);
            assert(pb_up.len() == sib_up.len());
            let lb = bytes_of(lemma@);
            assert(lb =~= seq![w[pi as int]] + sib_w + sib_up + seq![root.bytes()]);
            assert(lb[0] == w[pi as int]);
            assert(lb.subrange(1, lb.len() - 1) =~= sib_w + sib_up);
            assert(path@ =~= pb_w + pb_up);
            assert(path@.len() + 2 == lb.len());
            lemma_fold_concat::<E, A>(w[pi as int], sib_w, pb_w, sib_up, pb_up, 0);
            lemma_fold_reaches_root::<E, A>(w, pi as nat, 0);
            assert(partial.leaf_seq() == w);
            assert(partial_root.bytes() == tree_from::<E, A>(w, 0).last());
            assert(above.bytes() == upper_level[a as int]);
            assert(tree_from::<E, A>(w, 0).last() == upper_level[a as int]);
            lemma_fold_reaches_root::<E, A>(upper_level, a as nat, m as nat);
            let t = tree_from::<E, A>(upper_level, m as nat);
            let full = tree_from::<E, A>(l, 0);
            lemma_tree_len::<E, A>(upper_level, m as nat);
            lemma_tree_len_ge(upper_level.len());
            assert(t.len() >= 1);
            assert(full.subrange(base as int, full.len() as int) == t);
            assert(t.last() == full[full.len() - 1]);
            assert(t.last() == full.last());
            assert(fold_up::<E, A>(lb[0], lb.subrange(1, lb.len() - 1), path@, 0) == lb.last());
            assert(path@ =~= path_bits(n as nat, i as nat));
            if w == window_of(l, levels as nat, i as nat) {
                assert(bytes_of(lemma@) =~= proof_lemma::<E, A>(l, i as nat));
            }
        }
        let proof = Proof::new(lemma, path);
        Ok(ProofAndTree { proof, merkle_tree: partial })
    }

    /// Drops the middle levels: keeps the leaves and the levels from the
    /// partial trees' roots up (`levels` levels above them), so that
    /// proofs are then made with `gen_proof_and_partial_tree`. Refused when
    /// partial trees do not fit, when the kept levels would outnumber the
    /// dropped ones, or when the tree was compacted otherwise before;
    /// compacting again as before changes nothing.
    pub fn compact(&mut self, levels: usize) -> (r: Result<bool, MerkleError>)
        requires
            old(self).wf(),
        ensures
            final(self).wf(),
            final(self).leaf_seq() == old(self).leaf_seq(),
            !(partial_fits(old(self).leaf_seq().len(), levels as nat) && compaction_shrinks(
                old(self).leaf_seq().len(),
                levels as nat,
            )) ==> r == Err::<bool, MerkleError>(MerkleError::CompactionRefused { levels })
                && *final(self) == *old(self),
            partial_fits(old(self).leaf_seq().len(), levels as nat) && compaction_shrinks(
                old(self).leaf_seq().len(),
                levels as nat,
            ) && old(self).cache_base() == cache_start(old(self).leaf_seq().len(), levels as nat) ==> r
                == Ok::<bool, MerkleError>(true) && *final(self) == *old(self),
            partial_fits(old(self).leaf_seq().len(), levels as nat) && compaction_shrinks(
                old(self).leaf_seq().len(),
                levels as nat,
            ) && old(self).is_full() ==> r == Ok::<bool, MerkleError>(true) || (r
                == Err::<bool, MerkleError>(MerkleError::IoFailure) && *final(self) == *old(self)),
            r is Ok ==> r == Ok::<bool, MerkleError>(true) && final(self).cache_base() == cache_start(
                old(self).leaf_seq().len(),
                levels as nat,
            ),
            partial_fits(old(self).leaf_seq().len(), levels as nat) && compaction_shrinks(
                old(self).leaf_seq().len(),
                levels as nat,
            ) && old(self).cache_base() == pad(old(self).leaf_seq()).len() && K::new_succeeds(
                (tree_len(old(self).leaf_seq().len()) - cache_start(
                    old(self).leaf_seq().len(),
                    levels as nat,
                )) as nat,
            ) ==> r == Ok::<bool, MerkleError>(true),
            partial_fits(old(self).leaf_seq().len(), levels as nat) && compaction_shrinks(
                old(self).leaf_seq().len(),
                levels as nat,
            ) && old(self).cache_base() != pad(old(self).leaf_seq()).len() && old(self).cache_base()
                != cache_start(old(self).leaf_seq().len(), levels as nat) ==> r == Err::<bool, MerkleError>(
                MerkleError::CompactionRefused { levels },
            ) && *final(self) == *old(self),
            final(self).has_base() == old(self).has_base(),
            r is Err ==> *final(self) == *old(self),
    {
        let (m, _q) = match self.window(levels) {
            Some(w) => w,
            None => return Err(MerkleError::CompactionRefused { levels }),
        };
        let ghost l = self.leaf_seq();
        let ghost full_top = tree_from::<E, A>(parents::<E, A>(l, 0), 1);
        let n = self.leafs;
        let total = self.len();
        proof {
            lemma_level_base_bound(n as nat, m as nat);
            lemma_tree_len::<E, A>(parents::<E, A>(l, 0), 1);
            lemma_tree_len::<E, A>(l, 0);
            assert(level_base(n as nat, m as nat) >= n);
        }
        let base = level_start(n, m);
        let ll = self.leaves_len;
        if total - base > base - ll {
            return Err(MerkleError::CompactionRefused { levels });
        }
        let target = base - ll;
        if self.cached_from == target {
            return Ok(true);
        }
        if self.cached_from != 0 {
            return Err(MerkleError::CompactionRefused { levels });
        }
        let count = total - base;
        proof {
            assert(count * E::width() <= tree_len(n as nat) * E::width()) by (nonlinear_arith)
                requires
                    count <= tree_len(n as nat),
            ;
        }
        let mut kept = match K::new(count) {
            Ok(s) => s,
            Err(e) => return Err(e),
        };
        let mut k: usize = 0;
        proof {
            assert(self.top_half.elems() =~= full_top);
            assert(kept.elems() =~= full_top.subrange(target as int, target as int));
        }
        while k < count
            invariant
                self.wf(),
                *self == *old(self),
                self.top_half.elems() == full_top,
                full_top.len() == target + count,
                kept.inv(),
                kept.capacity() >= count,
                k <= count,
                kept.elems() == full_top.subrange(target as int, target + k),
            decreases count - k,
        {
            let e = match self.top_half.read_at(target + k) {
                Ok(e) => e,
                Err(e) => return Err(e),
            };
            match kept.push(e) {
                Ok(()) => {},
                Err(e) => return Err(e),
            }
            proof {
                assert(kept.elems() =~= full_top.subrange(target as int, target + k + 1));
            }
            k = k + 1;
        }
        self.top_half = kept;
        self.cached_from = target;
        Ok(true)
    }

    /// Compacts as `compact` does and drops the leaves too: the tree then
    /// keeps only the levels from the partial trees' roots up, and proofs
    /// are made from windows of leaves handed in
    /// (`gen_proof_and_partial_tree_from_window`). Compacting again so
    /// changes nothing.
    pub fn compact_v2(&mut self, levels: usize) -> (r: Result<bool, MerkleError>)
        requires
            old(self).wf(),
        ensures
            final(self).wf(),
            final(self).leaf_seq() == old(self).leaf_seq(),
            !(partial_fits(old(self).leaf_seq().len(), levels as nat) && compaction_shrinks(
                old(self).leaf_seq().len(),
                levels as nat,
            )) ==> r == Err::<bool, MerkleError>(MerkleError::CompactionRefused { levels })
                && *final(self) == *old(self),
            partial_fits(old(self).leaf_seq().len(), levels as nat) && compaction_shrinks(
                old(self).leaf_seq().len(),
                levels as nat,
            ) && old(self).cache_base() == cache_start(old(self).leaf_seq().len(), levels as nat)
                && !old(self).has_base() ==> r == Ok::<bool, MerkleError>(true) && *final(self)
                == *old(self),
            partial_fits(old(self).leaf_seq().len(), levels as nat) && compaction_shrinks(
                old(self).leaf_seq().len(),
                levels as nat,
            ) && old(self).is_full() ==> r == Ok::<bool, MerkleError>(true) || (r
                == Err::<bool, MerkleError>(MerkleError::IoFailure) && *final(self) == *old(self)),
            r is Ok ==> r == Ok::<bool, MerkleError>(true) && final(self).cache_base() == cache_start(
                old(self).leaf_seq().len(),
                levels as nat,
            ) && !final(self).has_base(),
            partial_fits(old(self).leaf_seq().len(), levels as nat) && compaction_shrinks(
                old(self).leaf_seq().len(),
                levels as nat,
            ) && old(self).cache_base() == pad(old(self).leaf_seq()).len() && K::new_succeeds(
                (tree_len(old(self).leaf_seq().len()) - cache_start(
                    old(self).leaf_seq().len(),
                    levels as nat,
                )) as nat,
            ) ==> r == Ok::<bool, MerkleError>(true),
            partial_fits(old(self).leaf_seq().len(), levels as nat) && compaction_shrinks(
                old(self).leaf_seq().len(),
                levels as nat,
            ) && old(self).cache_base() != pad(old(self).leaf_seq()).len() && old(self).cache_base()
                != cache_start(old(self).leaf_seq().len(), levels as nat) ==> r == Err::<bool, MerkleError>(
                MerkleError::CompactionRefused { levels },
            ) && *final(self) == *old(self),
            r is Ok ==> !final(self).has_base(),
            r is Err ==> *final(self) == *old(self),
    {
        match self.compact(levels) {
            Ok(_) => {},
            Err(e) => return Err(e),
        }
        self.leaves = None;
        Ok(true)
    }

    /// Asks both stores to release their memory until next used; `true`
    /// when both did. The tree's contents are the same either way.
    pub fn try_offload_store(&self) -> (r: bool)
        ensures
            r == self.offloadable(),
            !K::may_offload() ==> !r,
    {
        proof {
            self.top_half.lemma_offloadable();
        }
        let leaves_offloaded = match &self.leaves {
            Some(s) => s.try_offload(),
            None => true,
        };
        leaves_offloaded && self.top_half.try_offload()
    }

    /// Allocation for `n` leaves: the power of two that holds them, with
    /// the facts that make a build over it succeed.
    fn alloc_size(n: usize) -> (pow: usize)
        requires
            n >= 2,
            4 * n * E::width() <= usize::MAX,
        ensures
            is_pow2(pow as nat),
            pow == pow2_ceil(n as nat),
            n <= pow,
            pow * E::width() <= usize::MAX,
            n + n % 2 <= pow,
            tree_len(n as nat) <= n + n % 2 + pow - 1,
            tree_len(n as nat) * E::width() <= usize::MAX,
    {
        proof {
            E::lemma_bytes_len(arbitrary());
            assert(4 * n <= 4 * n * E::width()) by (nonlinear_arith)
                requires
                    E::width() >= 1,
            ;
        }
        let pow = next_pow2(n);
        proof {
            lemma_stores_fit(n as nat, pow as nat);
            lemma_tree_len_bound(n as nat, pow as nat);
            assert(pow * E::width() <= 4 * n * E::width()) by (nonlinear_arith)
                requires
                    pow <= 2 * n,
            ;
            assert(tree_len(n as nat) * E::width() <= 4 * n * E::width()) by (nonlinear_arith)
                requires
                    tree_len(n as nat) <= 4 * n,
            ;
        }
        pow
    }

    /// Pushes the leaf hash of each element of `data` onto `store`.
    fn push_leaves(store: &mut K, data: &[E]) -> (r: Result<(), MerkleError>)
        requires
            old(store).inv(),
        ensures
            final(store).inv(),
            final(store).capacity() == old(store).capacity(),
            old(store).elems().len() + data@.len() <= old(store).capacity() ==> r is Ok,
            r is Err ==> r == Err::<(), MerkleError>(
                MerkleError::InsufficientCapacity { requested: 1, available: 0 },
            ),
            r is Ok ==> final(store).elems() == old(store).elems() + leaf_hashes::<E, A>(data@),
    {
        let mut k: usize = 0;
        while k < data.len()
            invariant
                store.inv(),
                store.capacity() == old(store).capacity(),
                k <= data@.len(),
                old(store).elems().len() + data@.len() <= old(store).capacity() ==> store.elems().len()
                    + (data@.len() - k) <= store.capacity(),
                store.elems() == old(store).elems() + leaf_hashes::<E, A>(data@.subrange(0, k as int)),
            decreases data@.len() - k,
        {
            match store.push(A::leaf(data[k])) {
                Ok(()) => {},
                Err(e) => return Err(e),
            }
            proof {
                assert(leaf_hashes::<E, A>(data@.subrange(0, k + 1)) =~= leaf_hashes::<E, A>(
                    data@.subrange(0, k as int),
                ).push(A::leaf_spec(data@[k as int].bytes())));
            }
            k = k + 1;
        }
        proof {
            assert(data@.subrange(0, data@.len() as int) =~= data@);
        }
        Ok(())
    }

    /// Builds a tree over the leaf hashes of `data`.
    pub fn from_iter(data: &[E]) -> (r: Result<Self, MerkleError>)
        requires
            4 * data@.len() * E::width() <= usize::MAX,
        ensures
            data@.len() < 2 ==> r == Err::<Self, MerkleError>(
                MerkleError::NotEnoughLeaves { count: data@.len() as usize },
            ),
            data@.len() >= 2 ==> r is Ok || r == Err::<Self, MerkleError>(MerkleError::IoFailure),
            data@.len() >= 2 && K::new_succeeds(pow2_ceil(data@.len())) ==> r is Ok,
            r is Ok ==> r->Ok_0.wf() && r->Ok_0.is_full() && r->Ok_0.leaf_seq() == leaf_hashes::<E, A>(data@),
    {
        let leafs = data.len();
        if leafs < 2 {
            return Err(MerkleError::NotEnoughLeaves { count: leafs });
        }
        let pow = Self::alloc_size(leafs);
        let mut leaves = match K::new(pow) {
            Ok(s) => s,
            Err(e) => return Err(e),
        };
        let top_half = match K::new(pow) {
            Ok(s) => s,
            Err(e) => return Err(e),
        };
        match Self::push_leaves(&mut leaves, data) {
            Ok(()) => {},
            Err(e) => return Err(e),
        }
        proof {
            assert(leaves.elems() =~= leaf_hashes::<E, A>(data@));
        }
        Self::build(leaves, top_half, leafs)
    }

    /// Builds a tree over the leaf hashes of `data`.
    pub fn new(data: &[E]) -> (r: Result<Self, MerkleError>)
        requires
            4 * data@.len() * E::width() <= usize::MAX,
        ensures
            data@.len() < 2 ==> r == Err::<Self, MerkleError>(
                MerkleError::NotEnoughLeaves { count: data@.len() as usize },
            ),
            data@.len() >= 2 ==> r is Ok || r == Err::<Self, MerkleError>(MerkleError::IoFailure),
            data@.len() >= 2 && K::new_succeeds(pow2_ceil(data@.len())) ==> r is Ok,
            r is Ok ==> r->Ok_0.wf() && r->Ok_0.is_full() && r->Ok_0.leaf_seq() == leaf_hashes::<E, A>(data@),
    {
        Self::from_iter(data)
    }

    /// Builds a tree over the leaf hashes of `data`, hashing the leaves on
    /// the thread pool.
    pub fn from_par_iter(data: &[E]) -> (r: Result<Self, MerkleError>)
        requires
            4 * data@.len() * E::width() <= usize::MAX,
        ensures
            data@.len() < 2 ==> r == Err::<Self, MerkleError>(
                MerkleError::NotEnoughLeaves { count: data@.len() as usize },
            ),
            data@.len() >= 2 ==> r is Ok || r == Err::<Self, MerkleError>(MerkleError::IoFailure),
            data@.len() >= 2 && K::new_succeeds(pow2_ceil(data@.len())) ==> r is Ok,
            r is Ok ==> r->Ok_0.wf() && r->Ok_0.is_full() && r->Ok_0.leaf_seq() == leaf_hashes::<E, A>(data@),
    {
        let leafs = data.len();
        if leafs < 2 {
            return Err(MerkleError::NotEnoughLeaves { count: leafs });
        }
        let pow = Self::alloc_size(leafs);
        let mut leaves = match K::new(pow) {
            Ok(s) => s,
            Err(e) => return Err(e),
        };
        let top_half = match K::new(pow) {
            Ok(s) => s,
            Err(e) => return Err(e),
        };
        let hashed = par_hash_leaves::<E, A>(data);
        match push_all(&mut leaves, &hashed) {
            Ok(()) => {},
            Err(e) => return Err(e),
        }
        proof {
            assert(leaves.elems() =~= leaf_hashes::<E, A>(data@));
        }
        Self::build(leaves, top_half, leafs)
    }

    /// Builds a tree over `data`: each input is digested by
    /// `A::hash_data`, and the digests are the elements the leaves are
    /// hashed from.
    pub fn from_data(data: &[Vec<u8>]) -> (r: Result<Self, MerkleError>)
        requires
            4 * data@.len() * E::width() <= usize::MAX,
        ensures
            data@.len() < 2 ==> r == Err::<Self, MerkleError>(
                MerkleError::NotEnoughLeaves { count: data@.len() as usize },
            ),
            data@.len() >= 2 ==> r is Ok || r == Err::<Self, MerkleError>(MerkleError::IoFailure),
            data@.len() >= 2 && K::new_succeeds(pow2_ceil(data@.len())) ==> r is Ok,
            r is Ok ==> r->Ok_0.wf() && r->Ok_0.is_full() && r->Ok_0.leaf_seq() == Seq::new(
                data@.len(),
                |i: int| A::leaf_spec(A::data_spec(data@[i]@)),
            ),
    {
        let mut items: Vec<E> = Vec::new();
        let mut k: usize = 0;
        while k < data.len()
            invariant
                k <= data@.len(),
                items@.len() == k,
                forall|m: int| 0 <= m < k ==> #[trigger] items@[m].bytes() == A::data_spec(data@[m]@),
            decreases data@.len() - k,
        {
            items.push(A::hash_data(data[k].as_slice()));
            k = k + 1;
        }
        let r = Self::from_iter(items.as_slice());
        proof {
            assert(leaf_hashes::<E, A>(items@) =~= Seq::new(
                data@.len(),
                |i: int| A::leaf_spec(A::data_spec(data@[i]@)),
            ));
        }
        r
    }

    /// Builds a tree over the leaf hashes of `data` in stores the caller
    /// allocated.
    pub fn from_data_with_store(data: &[E], leaves: K, top_half: K) -> (r: Result<Self, MerkleError>)
        requires
            leaves.inv(),
            top_half.inv(),
            leaves.elems().len() == 0,
            top_half.elems().len() == 0,
            4 * data@.len() * E::width() <= usize::MAX,
        ensures
            data@.len() < 2 ==> r == Err::<Self, MerkleError>(
                MerkleError::NotEnoughLeaves { count: data@.len() as usize },
            ),
            data@.len() >= 2 && leaves.capacity() >= data@.len() + data@.len() % 2
                && top_half.capacity() + data@.len() + data@.len() % 2 >= tree_len(data@.len())
                ==> r is Ok,
            r is Err && data@.len() >= 2 ==> r == Err::<Self, MerkleError>(
                MerkleError::InsufficientCapacity { requested: 1, available: 0 },
            ),
            r is Ok ==> r->Ok_0.wf() && r->Ok_0.is_full() && r->Ok_0.leaf_seq() == leaf_hashes::<E, A>(data@),
    {
        let leafs = data.len();
        if leafs < 2 {
            return Err(MerkleError::NotEnoughLeaves { count: leafs });
        }
        // The allocation size is not used here, only the size facts that
        // come with it.
        let _pow = Self::alloc_size(leafs);
        let mut lv = leaves;
        match Self::push_leaves(&mut lv, data) {
            Ok(()) => {},
            Err(e) => return Err(e),
        }
        proof {
            assert(lv.elems() =~= leaf_hashes::<E, A>(data@));
        }
        Self::build(lv, top_half, leafs)
    }

    /// Takes back a tree from stores that already hold it (the first
    /// `leafs` elements of `leaves` are its leaves), after checking every
    /// stored node against the tree rebuilt from those leaves.
    pub fn from_data_store(leaves: K, top_half: K, leafs: usize) -> (r: Result<Self, MerkleError>)
        requires
            leaves.inv(),
            top_half.inv(),
        ensures
            leafs < 2 ==> r == Err::<Self, MerkleError>(MerkleError::NotEnoughLeaves { count: leafs }),
            r is Ok ==> r->Ok_0.wf() && r->Ok_0.is_full() && leafs <= leaves.elems().len()
                && r->Ok_0.leaf_seq() == leaves.elems().subrange(0, leafs as int),
            leafs >= 2 && leafs <= leaves.elems().len() && leaves.elems() == pad(
                leaves.elems().subrange(0, leafs as int),
            ) && top_half.elems() == tree_from::<E, A>(
                parents::<E, A>(leaves.elems().subrange(0, leafs as int), 0),
                1,
            ) && tree_len(leafs as nat) * E::width() <= usize::MAX ==> r is Ok,
            r is Err && leafs >= 2 ==> r == Err::<Self, MerkleError>(MerkleError::InconsistentStore),
    {
        if leafs < 2 {
            return Err(MerkleError::NotEnoughLeaves { count: leafs });
        }
        if leafs > leaves.len() {
            return Err(MerkleError::InconsistentStore);
        }
        proof {
            E::lemma_bytes_len(arbitrary());
        }
        match tree_size(leafs, E::byte_len()) {
            Some(_) => {},
            None => return Err(MerkleError::InconsistentStore),
        }
        let ghost l = leaves.elems().subrange(0, leafs as int);
        let firsts = match leaves.read_range(0, leafs) {
            Ok(v) => v,
            Err(_) => return Err(MerkleError::InconsistentStore),
        };
        let base_leaves = VecStore(firsts);
        let base_top: VecStore<E> = VecStore(Vec::new());
        proof {
            assert(base_top.elems() =~= Seq::<Seq<u8>>::empty());
        }
        let reference = match MerkleTree::<E, A, VecStore<E>>::build(base_leaves, base_top, leafs) {
            Ok(t) => t,
            Err(_) => return Err(MerkleError::InconsistentStore),
        };
        proof {
            let full = tree_from::<E, A>(parents::<E, A>(l, 0), 1);
            assert(reference.leaf_seq() == l);
            assert(reference.leaves.unwrap().elems() == pad(l));
            assert(reference.cached_from == 0);
            assert(full.subrange(0, full.len() as int) =~= full);
            assert(reference.top_half.elems() == full);
        }
        let reference_leaves = match &reference.leaves {
            Some(s) => s,
            None => return Err(MerkleError::InconsistentStore),
        };
        if !same_elems(reference_leaves, &leaves) || !same_elems(&reference.top_half, &top_half) {
            return Err(MerkleError::InconsistentStore);
        }
        proof {
            lemma_tree_len::<E, A>(parents::<E, A>(l, 0), 1);
            assert(reference.top_half.elems() == tree_from::<E, A>(parents::<E, A>(l, 0), 1).subrange(
                0,
                tree_from::<E, A>(parents::<E, A>(l, 0), 1).len() as int,
            ));
            assert(tree_from::<E, A>(parents::<E, A>(l, 0), 1).subrange(
                0,
                tree_from::<E, A>(parents::<E, A>(l, 0), 1).len() as int,
            ) =~= tree_from::<E, A>(parents::<E, A>(l, 0), 1));
        }
        let t = MerkleTree {
            leaves: Some(leaves),
            leaves_len: leafs + leafs % 2,
            top_half,
            leafs,
            height: reference.height,
            root: reference.root,
            cached_from: 0,
            leaf_seq: Ghost(l),
            alg: PhantomData,
        };
        Ok(t)
    }

    /// Builds a tree whose leaves are the elements laid end to end in
    /// `leafs` (already hashed).
    pub fn from_byte_slice(leafs: &[u8]) -> (r: Result<Self, MerkleError>)
        requires
            4 * leafs@.len() <= usize::MAX,
        ensures
            leafs@.len() % E::width() != 0 ==> r == Err::<Self, MerkleError>(
                MerkleError::UnalignedSlice { len: leafs@.len() as usize, width: E::width() as usize },
            ),
            leafs@.len() % E::width() == 0 && leafs@.len() / E::width() < 2 ==> r == Err::<
                Self,
                MerkleError,
            >(MerkleError::NotEnoughLeaves { count: (leafs@.len() / E::width()) as usize }),
            leafs@.len() % E::width() == 0 && leafs@.len() / E::width() >= 2 ==> r is Ok || r
                == Err::<Self, MerkleError>(MerkleError::IoFailure),
            leafs@.len() % E::width() == 0 && leafs@.len() / E::width() >= 2 && K::new_succeeds(
                pow2_ceil(leafs@.len() / E::width()),
            ) ==> r is Ok,
            r is Ok ==> r->Ok_0.wf() && r->Ok_0.is_full() && r->Ok_0.leaf_seq() == chunks(leafs@, E::width()),
    {
        let w = E::byte_len();
        if leafs.len() % w != 0 {
            return Err(MerkleError::UnalignedSlice { len: leafs.len(), width: w });
        }
        let count = leafs.len() / w;
        if count < 2 {
            return Err(MerkleError::NotEnoughLeaves { count });
        }
        proof {
            let len = leafs@.len() as int;
            vstd::arithmetic::div_mod::lemma_fundamental_div_mod(len, w as int);
            assert(count * w == len) by (nonlinear_arith)
                requires
                    len == w * (len / (w as int)) + len % (w as int),
                    len % (w as int) == 0,
                    count == len / (w as int),
            ;
            assert(4 * count * w == 4 * len) by (nonlinear_arith)
                requires
                    count * w == len,
            ;
        }
        let pow = Self::alloc_size(count);
        let leaves = match K::new_from_slice(pow, leafs) {
            Ok(s) => s,
            Err(e) => return Err(e),
        };
        let top_half = match K::new(pow) {
            Ok(s) => s,
            Err(e) => return Err(e),
        };
        Self::build(leaves, top_half, count)
    }

    /// Two trees over the same leaves, whatever their stores, hold the same
    /// nodes and the same root.
    pub proof fn lemma_same_leaves_same_tree<K2: Store<E>>(&self, other: &MerkleTree<E, A, K2>)
        requires
            self.wf(),
            other.wf(),
            self.leaf_seq() == other.leaf_seq(),
        ensures
            self.root_bytes() == other.root_bytes(),
            self.elems() == other.elems(),
    {
    }

    /// A tree built from the bytes of hashed leaves laid end to end (as
    /// `from_byte_slice` does) and one built from the inputs they were
    /// hashed from (as `from_iter` does) hold the same nodes and root, and
    /// give the same proof for every leaf.
    pub proof fn lemma_byte_slice_tree_matches<K2: Store<E>>(
        &self,
        other: &MerkleTree<E, A, K2>,
        data: Seq<E>,
    )
        requires
            self.wf(),
            other.wf(),
            self.leaf_seq() == chunks(concat_bytes(leaf_hashes::<E, A>(data)), E::width()),
            other.leaf_seq() == leaf_hashes::<E, A>(data),
        ensures
            self.elems() == other.elems(),
            self.root_bytes() == other.root_bytes(),
            forall|i: nat|
                i < self.leaf_seq().len() ==> #[trigger] proof_lemma::<E, A>(self.leaf_seq(), i)
                    == proof_lemma::<E, A>(other.leaf_seq(), i),
    {
        lemma_byte_slice_matches_inputs::<E, A>(data);
    }

    /// The proof that `gen_proof(i)` returns for any leaf `i` validates.
    pub proof fn lemma_gen_proof_validates(&self, i: nat)
        requires
            self.wf(),
            i < self.leaf_seq().len(),
        ensures
            proof_valid::<E, A>(proof_lemma::<E, A>(self.leaf_seq(), i), path_bits(self.leaf_seq().len(), i)),
    {
        lemma_proof_lemma_valid::<E, A>(self.leaf_seq(), i);
    }

    /// The first `leafs` nodes are the leaves, in order.
    pub proof fn lemma_leaves_read_back(&self, i: int)
        requires
            self.wf(),
            0 <= i < self.leaf_seq().len(),
        ensures
            self.elems()[i] == self.leaf_seq()[i],
    {
        assert(self.elems() == pad(self.leaf_seq()) + tree_from::<E, A>(
            parents::<E, A>(self.leaf_seq(), 0),
            1,
        ));
    }

    /// After compaction with `levels` cached levels, every leaf still has a
    /// partial-tree proof owed to it, and that proof validates.
    pub proof fn lemma_compacted_proofs_validate(&self, levels: nat, i: nat)
        requires
            self.wf(),
            partial_fits(self.leaf_seq().len(), levels),
            self.cache_base() == cache_start(self.leaf_seq().len(), levels),
            i < self.leaf_seq().len(),
        ensures
            self.cache_base() <= cache_start(self.leaf_seq().len(), levels),
            proof_valid::<E, A>(proof_lemma::<E, A>(self.leaf_seq(), i), path_bits(self.leaf_seq().len(), i)),
    {
        lemma_proof_lemma_valid::<E, A>(self.leaf_seq(), i);
    }

    /// A tree over a power of two of leaves has `2 * leafs - 1` nodes and
    /// no level with a duplicated node.
    pub proof fn lemma_pow2_shape(&self)
        requires
            self.wf(),
            is_pow2(self.leaf_seq().len()),
        ensures
            self.elems().len() == 2 * self.leaf_seq().len() - 1,
            unpadded::<E, A>(self.leaf_seq(), 0),
    {
        lemma_pow2_tree_len(self.leaf_seq().len());
        lemma_pow2_unpadded::<E, A>(self.leaf_seq(), 0);
    }

    /// The tree has `log2(2 * next_pow2(leafs))` levels.
    pub proof fn lemma_height_is_log2(&self, q: nat)
        requires
            self.wf(),
            is_pow2(q),
            self.leaf_seq().len() <= q < 2 * self.leaf_seq().len(),
        ensures
            self.height_spec() == log2(2 * q),
    {
        lemma_height_log2(self.leaf_seq().len(), q);
        assert(is_pow2(2 * q) && log2(2 * q) == 1 + log2(q)) by {
            assert((2 * q) / 2 == q);
        }
    }
}

/// Two leaves: two levels, three nodes, and the root is their parent.
pub proof fn lemma_two_leaves<E: Element, A: Algorithm<E>>(l: Seq<Seq<u8>>)
    requires
        l.len() == 2,
    ensures
        height_from(2) == 2,
        tree_len(2) == 3,
        tree_from::<E, A>(l, 0) == seq![l[0], l[1], A::node_spec(l[0], l[1], 0)],
        root_of::<E, A>(l) == A::node_spec(l[0], l[1], 0),
{
    let up = parents::<E, A>(l, 0);
    assert(up =~= seq![A::node_spec(l[0], l[1], 0)]);
    assert(pad(l) == l);
    assert(tree_from::<E, A>(up, 1) == up);
    assert(tree_from::<E, A>(l, 0) =~= seq![l[0], l[1], A::node_spec(l[0], l[1], 0)]);
    assert(height_from(1) == 1);
    assert(tree_len(1) == 1);
}

/// Three leaves: three levels, seven nodes; the last leaf is duplicated
/// and the root hashes the two parents at level 1.
pub proof fn lemma_three_leaves<E: Element, A: Algorithm<E>>(l: Seq<Seq<u8>>)
    requires
        l.len() == 3,
    ensures
        height_from(3) == 3,
        tree_len(3) == 7,
        pad(l) == seq![l[0], l[1], l[2], l[2]],
        root_of::<E, A>(l) == A::node_spec(
            A::node_spec(l[0], l[1], 0),
            A::node_spec(l[2], l[2], 0),
            1,
        ),
{
    assert(height_from(1) == 1);
    assert(height_from(2) == 2);
    assert(tree_len(1) == 1);
    assert(tree_len(2) == 3);
    let n01 = A::node_spec(l[0], l[1], 0);
    let n22 = A::node_spec(l[2], l[2], 0);
    assert(pad(l) =~= seq![l[0], l[1], l[2], l[2]]);
    let up = parents::<E, A>(l, 0);
    assert(up =~= seq![n01, n22]);
    let top = parents::<E, A>(up, 1);
    assert(top =~= seq![A::node_spec(n01, n22, 1)]);
    lemma_root_step::<E, A>(l, 0);
    lemma_root_step::<E, A>(up, 1);
}

/// A tree built from the bytes of already hashed leaves laid end to end
/// has the same leaves as one built from the inputs those leaves were
/// hashed from, hence the same nodes, proofs and root.
pub proof fn lemma_byte_slice_matches_inputs<E: Element, A: Algorithm<E>>(data: Seq<E>)
    ensures
        chunks(concat_bytes(leaf_hashes::<E, A>(data)), E::width()) == leaf_hashes::<E, A>(data),
{
    let l = leaf_hashes::<E, A>(data);
    assert forall|i: int| 0 <= i < l.len() implies #[trigger] l[i].len() == E::width() by {
        E::lemma_bytes_len(data[i]);
        A::lemma_output_width(data[i].bytes(), data[i].bytes(), 0);
    }
    E::lemma_bytes_len(arbitrary());
    lemma_chunks_concat(l, E::width());
}

} // verus!
