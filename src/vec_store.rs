use vstd::prelude::*;
use vstd::slice::{slice_subrange, slice_to_vec};
use crate::element::Element;
use crate::error::MerkleError;
use crate::store::{Store, bytes_of, chunks, slice_count, splice};

verus! {

/// `k < len / w` puts the `k`-th piece of `w` bytes inside `len` bytes.
pub proof fn lemma_chunk_in_bounds(k: int, len: int, w: int)
    requires
        0 <= k,
        0 < w,
        0 <= len,
        k < len / w,
    ensures
        0 <= k * w,
        k * w + w <= len,
{
    vstd::arithmetic::div_mod::lemma_fundamental_div_mod(len, w);
    assert(0 <= len % w) by {
        vstd::arithmetic::div_mod::lemma_mod_pos_bound(len, w);
    }
    assert((k + 1) * w <= (len / w) * w) by (nonlinear_arith)
        requires
            k + 1 <= len / w,
            w > 0,
    ;
    assert((k + 1) * w == k * w + w) by (nonlinear_arith);
    assert(0 <= k * w) by (nonlinear_arith)
        requires
            0 <= k,
            0 < w,
    ;
    assert(w * (len / w) == (len / w) * w) by (nonlinear_arith);
}

/// A store held in an ordinary in-memory vector.
pub struct VecStore<E: Element>(pub Vec<E>);

impl<E: Element> Store<E> for VecStore<E> {
    open spec fn elems(&self) -> Seq<Seq<u8>> {
        bytes_of(self.0@)
    }

    open spec fn capacity(&self) -> nat {
        usize::MAX as nat
    }

    open spec fn inv(&self) -> bool {
        true
    }

    open spec fn capacity_for(size: nat) -> nat {
        usize::MAX as nat
    }

    open spec fn new_succeeds(size: nat) -> bool {
        true
    }

    open spec fn offloadable(&self) -> bool {
        false
    }

    open spec fn may_offload() -> bool {
        false
    }

    proof fn lemma_offloadable(&self) {
    }

    proof fn lemma_inv(&self) {
        assert(self.0.len() == self.0@.len());
        assert forall|i: int| 0 <= i < self.elems().len() implies #[trigger] self.elems()[i].len()
            == E::width() by {
            E::lemma_bytes_len(self.0@[i]);
        }
    }

    fn new(size: usize) -> (r: Result<Self, MerkleError>) {
        let v: Vec<E> = Vec::with_capacity(size);
        proof {
            assert(bytes_of(v@) =~= Seq::<Seq<u8>>::empty());
        }
        Ok(VecStore(v))
    }

    fn new_from_slice(size: usize, data: &[u8]) -> (r: Result<Self, MerkleError>) {
        let w = E::byte_len();
        let count = match slice_count(data.len(), size, w) {
            Ok(c) => c,
            Err(e) => return Err(e),
        };
        let mut v: Vec<E> = Vec::with_capacity(size);
        let mut k: usize = 0;
        assert(data@.len() == data.len());
        while k < count
            invariant
                w == E::width(),
                w > 0,
                count == data@.len() / (w as nat),
                data@.len() <= usize::MAX,
                k <= count,
                v@.len() == k,
                forall|m: int| 0 <= m < k ==> #[trigger] v@[m].bytes() == chunks(data@, w as nat)[m],
            decreases count - k,
        {
            proof {
                lemma_chunk_in_bounds(k as int, data@.len() as int, w as int);
            }
            let el = E::from_slice(slice_subrange(data, k * w, k * w + w));
            v.push(el);
            k = k + 1;
        }
        let s = VecStore(v);
        proof {
            assert(s.elems() =~= chunks(data@, E::width()));
        }
        Ok(s)
    }

    fn write_at(&mut self, el: E, i: usize) -> (r: Result<(), MerkleError>) {
        let len = self.0.len();
        if i > len {
            return Err(MerkleError::OutOfBounds { index: i, len });
        }
        if i == len {
            if len == usize::MAX {
                return Err(MerkleError::InsufficientCapacity { requested: 1, available: 0 });
            }
            self.0.push(el);
            proof {
                assert(self.elems() =~= old(self).elems().push(el.bytes()));
            }
        } else {
            self.0.set(i, el);
            proof {
                assert(self.elems() =~= old(self).elems().update(i as int, el.bytes()));
            }
        }
        Ok(())
    }

    fn write_range(&mut self, buf: &[u8], start: usize) -> (r: Result<(), MerkleError>) {
        let w = E::byte_len();
        if buf.len() % w != 0 {
            return Err(MerkleError::UnalignedSlice { len: buf.len(), width: w });
        }
        let len = self.0.len();
        if start > len {
            return Err(MerkleError::OutOfBounds { index: start, len });
        }
        let count = buf.len() / w;
        if count > usize::MAX - start {
            return Err(
                MerkleError::InsufficientCapacity { requested: count, available: usize::MAX - start },
            );
        }
        let ghost new_elems = chunks(buf@, w as nat);
        assert(buf@.len() == buf.len());
        let mut k: usize = 0;
        proof {
            assert(splice(old(self).elems(), start as int, new_elems.subrange(0, 0)) =~= old(
                self,
            ).elems());
        }
        while k < count
            invariant
                w == E::width(),
                w > 0,
                count == buf@.len() / (w as nat),
                buf@.len() <= usize::MAX,
                new_elems == chunks(buf@, w as nat),
                start <= old(self).elems().len(),
                start + count <= usize::MAX,
                k <= count,
                self.elems() == splice(old(self).elems(), start as int, new_elems.subrange(0, k as int)),
            decreases count - k,
        {
            proof {
                lemma_chunk_in_bounds(k as int, buf@.len() as int, w as int);
            }
            let el = E::from_slice(slice_subrange(buf, k * w, k * w + w));
            let pos = start + k;
            let ghost before = self.elems();
            let ghost part = new_elems.subrange(0, k as int + 1);
            if pos < self.0.len() {
                self.0.set(pos, el);
                proof {
                    assert(self.elems() =~= before.update(pos as int, el.bytes()));
                    assert(splice(old(self).elems(), start as int, part) =~= before.update(
                        pos as int,
                        el.bytes(),
                    ));
                }
            } else {
                self.0.push(el);
                proof {
                    assert(self.elems() =~= before.push(el.bytes()));
                    assert(splice(old(self).elems(), start as int, part) =~= before.push(el.bytes()));
                }
            }
            k = k + 1;
        }
        proof {
            assert(new_elems.subrange(0, count as int) =~= new_elems);
        }
        Ok(())
    }

    fn read_at(&self, i: usize) -> (r: Result<E, MerkleError>) {
        if i < self.0.len() {
            Ok(self.0[i])
        } else {
            Err(MerkleError::OutOfBounds { index: i, len: self.0.len() })
        }
    }

    fn read_into(&self, i: usize, buf: &mut [u8]) -> (r: Result<(), MerkleError>) {
        if i < self.0.len() {
            self.0[i].copy_to_slice(buf);
            Ok(())
        } else {
            Err(MerkleError::OutOfBounds { index: i, len: self.0.len() })
        }
    }

    fn read_range(&self, start: usize, end: usize) -> (r: Result<Vec<E>, MerkleError>) {
        if end > self.0.len() {
            return Err(MerkleError::OutOfBounds { index: end, len: self.0.len() });
        }
        if start > end {
            return Err(MerkleError::OutOfBounds { index: start, len: end });
        }
        let out = slice_to_vec(slice_subrange(self.0.as_slice(), start, end));
        proof {
            assert(bytes_of(out@) =~= self.elems().subrange(start as int, end as int));
        }
        Ok(out)
    }

    fn len(&self) -> (r: usize) {
        self.0.len()
    }

    fn is_empty(&self) -> (r: bool) {
        self.0.len() == 0
    }

    fn push(&mut self, el: E) -> (r: Result<(), MerkleError>) {
        if self.0.len() == usize::MAX {
            return Err(MerkleError::InsufficientCapacity { requested: 1, available: 0 });
        }
        self.0.push(el);
        proof {
            assert(self.elems() =~= old(self).elems().push(el.bytes()));
        }
        Ok(())
    }

    fn try_offload(&self) -> (r: bool) {
        false
    }
}

} // verus!
