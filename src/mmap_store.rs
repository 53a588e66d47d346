use vstd::prelude::*;
use core::marker::PhantomData;
use memmap::MmapMut;
use crate::element::Element;
use crate::error::MerkleError;
use crate::store::{Store, bytes_of, chunks, slice_count, splice};
use crate::vec_store::lemma_chunk_in_bounds;

verus! {

#[verifier::external_type_specification]
#[verifier::external_body]
pub struct ExMmapMut(memmap::MmapMut);

#[verifier::external_type_specification]
#[verifier::external_body]
pub struct ExIoError(std::io::Error);

/// The bytes an anonymous memory map holds.
pub uninterp spec fn mapped_bytes(m: MmapMut) -> Seq<u8>;

/// Relies on `memmap::MmapMut::map_anon`: a map of exactly `length` bytes,
/// refused for a zero length.
#[verifier::external_body]
fn map_anon(length: usize) -> (r: Result<MmapMut, std::io::Error>)
    ensures
        r is Ok ==> mapped_bytes(r->Ok_0).len() == length,
        length == 0 ==> r is Err,
{
    MmapMut::map_anon(length)
}

/// Relies on `MmapMut`'s `Deref` to `[u8]`: copies out the bytes
/// `start..end`.
#[verifier::external_body]
fn map_read(m: &MmapMut, start: usize, end: usize) -> (r: Vec<u8>)
    requires
        start <= end <= mapped_bytes(*m).len(),
    ensures
        r@ == mapped_bytes(*m).subrange(start as int, end as int),
{
    m[start..end].to_vec()
}

/// Relies on `MmapMut`'s `Deref` to `[u8]`: copies the bytes from `start`
/// on into `buf`, filling it.
#[verifier::external_body]
fn map_read_into(m: &MmapMut, start: usize, buf: &mut [u8])
    requires
        start + old(buf)@.len() <= mapped_bytes(*m).len(),
    ensures
        final(buf)@ == mapped_bytes(*m).subrange(start as int, start + old(buf)@.len()),
{
    let end = start + buf.len();
    buf.copy_from_slice(&m[start..end]);
}

/// Relies on `MmapMut`'s `DerefMut` to `[u8]`: overwrites the bytes from
/// `start` on with `data`.
#[verifier::external_body]
fn map_write(m: &mut MmapMut, start: usize, data: &[u8])
    requires
        start + data@.len() <= mapped_bytes(*old(m)).len(),
    ensures
        mapped_bytes(*final(m)) == mapped_bytes(*old(m)).subrange(0, start as int) + data@
            + mapped_bytes(*old(m)).subrange(
            start + data@.len(),
            mapped_bytes(*old(m)).len() as int,
        ),
{
    let end = start + data.len();
    m[start..end].copy_from_slice(data);
}

/// The bytes of `e`, in a vector.
fn elem_bytes<E: Element>(e: &E) -> (r: Vec<u8>)
    ensures
        r@ == e.bytes(),
{
    let w = E::byte_len();
    let mut buf: Vec<u8> = Vec::new();
    let mut k: usize = 0;
    while k < w
        invariant
            k <= w,
            buf@.len() == k,
        decreases w - k,
    {
        buf.push(0u8);
        k = k + 1;
    }
    e.copy_to_slice(buf.as_mut_slice());
    buf
}

/// Piece `k` of `w` bytes, before and after an overwrite of the bytes
/// `start..start + n`, is unchanged when it lies outside them.
proof fn lemma_piece_untouched(old: Seq<u8>, data: Seq<u8>, start: int, k: int, w: int)
    requires
        0 <= start,
        start + data.len() <= old.len(),
        0 <= k,
        w > 0,
        k * w + w <= old.len(),
        k * w + w <= start || start + data.len() <= k * w,
    ensures
        (old.subrange(0, start) + data + old.subrange(start + data.len(), old.len() as int)).subrange(
            k * w,
            k * w + w,
        ) == old.subrange(k * w, k * w + w),
{
    let new = old.subrange(0, start) + data + old.subrange(start + data.len(), old.len() as int);
    assert(new.len() == old.len());
    assert(0 <= k * w) by (nonlinear_arith)
        requires
            0 <= k,
            w > 0,
    ;
    assert(new.subrange(k * w, k * w + w) =~= old.subrange(k * w, k * w + w));
}

/// A store held in an anonymous memory map of fixed size.
pub struct MmapStore<E: Element> {
    map: MmapMut,
    len: usize,
    cap: usize,
    elem: PhantomData<E>,
}

impl<E: Element> MmapStore<E> {
    /// Elements `i` and `k` of width `w` do not overlap.
    proof fn lemma_disjoint(i: int, k: int, w: int)
        requires
            0 <= i,
            0 <= k,
            w > 0,
            i != k,
        ensures
            k * w + w <= i * w || i * w + w <= k * w,
    {
        if k < i {
            assert(k * w + w <= i * w) by (nonlinear_arith)
                requires
                    k + 1 <= i,
                    w > 0,
            ;
        } else {
            assert(i * w + w <= k * w) by (nonlinear_arith)
                requires
                    i + 1 <= k,
                    w > 0,
            ;
        }
    }

    proof fn lemma_in_bounds(k: int, n: int, w: int)
        requires
            0 <= k < n,
            w > 0,
        ensures
            0 <= k * w,
            k * w + w <= n * w,
    {
        assert(0 <= k * w) by (nonlinear_arith)
            requires
                0 <= k,
                w > 0,
        ;
        assert(k * w + w <= n * w) by (nonlinear_arith)
            requires
                k + 1 <= n,
                w > 0,
        ;
    }
}

impl<E: Element> Store<E> for MmapStore<E> {
    closed spec fn elems(&self) -> Seq<Seq<u8>> {
        let w = E::width();
        let b = mapped_bytes(self.map);
        Seq::new(self.len as nat, |i: int| b.subrange(i * w, i * w + w))
    }

    closed spec fn capacity(&self) -> nat {
        self.cap as nat
    }

    open spec fn capacity_for(size: nat) -> nat {
        size
    }

    /// The operating system may refuse a mapping of any size.
    open spec fn new_succeeds(size: nat) -> bool {
        false
    }

    open spec fn offloadable(&self) -> bool {
        false
    }

    open spec fn may_offload() -> bool {
        false
    }

    proof fn lemma_offloadable(&self) {
    }

    closed spec fn inv(&self) -> bool {
        &&& mapped_bytes(self.map).len() == self.cap * E::width()
        &&& self.len <= self.cap
        &&& self.cap * E::width() <= usize::MAX
    }

    proof fn lemma_inv(&self) {
        E::lemma_bytes_len(arbitrary());
        assert forall|i: int| 0 <= i < self.elems().len() implies #[trigger] self.elems()[i].len()
            == E::width() by {
            Self::lemma_in_bounds(i, self.cap as int, E::width() as int);
        }
    }

    fn new(size: usize) -> (r: Result<Self, MerkleError>) {
        let w = E::byte_len();
        match map_anon(size * w) {
            Ok(map) => {
                let s = MmapStore { map, len: 0, cap: size, elem: PhantomData };
                proof {
                    assert(s.elems() =~= Seq::<Seq<u8>>::empty());
                }
                Ok(s)
            },
            Err(_) => Err(MerkleError::IoFailure),
        }
    }

    fn new_from_slice(size: usize, data: &[u8]) -> (r: Result<Self, MerkleError>) {
        let w = E::byte_len();
        let count = match slice_count(data.len(), size, w) {
            Ok(c) => c,
            Err(e) => return Err(e),
        };
        let mut s = match Self::new(size) {
            Ok(s) => s,
            Err(e) => return Err(e),
        };
        proof {
            let len = data@.len() as int;
            vstd::arithmetic::div_mod::lemma_fundamental_div_mod(len, w as int);
            assert(count * w == len) by (nonlinear_arith)
                requires
                    len == w * (len / (w as int)) + len % (w as int),
                    len % (w as int) == 0,
                    count == len / (w as int),
            ;
            assert(count * w <= size * w) by (nonlinear_arith)
                requires
                    count <= size,
            ;
            assert(size * w <= s.cap * w) by (nonlinear_arith)
                requires
                    size <= s.cap,
            ;
            assert(s.len == s.elems().len());
        }
        map_write(&mut s.map, 0, data);
        s.len = count;
        proof {
            let b = mapped_bytes(s.map);
            assert forall|i: int| 0 <= i < count implies #[trigger] s.elems()[i] == chunks(
                data@,
                w as nat,
            )[i] by {
                Self::lemma_in_bounds(i, count as int, w as int);
                assert(b.subrange(i * w, i * w + w) =~= data@.subrange(i * w, i * w + w));
            }
            assert(s.elems() =~= chunks(data@, E::width()));
        }
        Ok(s)
    }

    fn write_at(&mut self, el: E, i: usize) -> (r: Result<(), MerkleError>) {
        if i > self.len {
            return Err(MerkleError::OutOfBounds { index: i, len: self.len });
        }
        if i == self.len && self.len >= self.cap {
            return Err(MerkleError::InsufficientCapacity { requested: 1, available: 0 });
        }
        let w = E::byte_len();
        proof {
            Self::lemma_in_bounds(i as int, self.cap as int, w as int);
        }
        let bytes = elem_bytes(&el);
        proof {
            E::lemma_bytes_len(el);
        }
        let ghost old_b = mapped_bytes(self.map);
        map_write(&mut self.map, i * w, bytes.as_slice());
        if i == self.len {
            self.len = self.len + 1;
        }
        proof {
            let b = mapped_bytes(self.map);
            let target = if i < old(self).len {
                old(self).elems().update(i as int, el.bytes())
            } else {
                old(self).elems().push(el.bytes())
            };
            assert forall|k: int| 0 <= k < self.len implies #[trigger] self.elems()[k] == target[k] by {
                Self::lemma_in_bounds(k, self.cap as int, w as int);
                if k == i {
                    assert(b.subrange(k * w, k * w + w) =~= el.bytes());
                } else {
                    Self::lemma_disjoint(i as int, k, w as int);
                    lemma_piece_untouched(old_b, bytes@, i * w, k, w as int);
                }
            }
            assert(self.elems() =~= target);
        }
        Ok(())
    }

    fn write_range(&mut self, buf: &[u8], start: usize) -> (r: Result<(), MerkleError>) {
        let w = E::byte_len();
        if buf.len() % w != 0 {
            return Err(MerkleError::UnalignedSlice { len: buf.len(), width: w });
        }
        if start > self.len {
            return Err(MerkleError::OutOfBounds { index: start, len: self.len });
        }
        let count = buf.len() / w;
        if count > self.cap - start {
            return Err(
                MerkleError::InsufficientCapacity { requested: count, available: self.cap - start },
            );
        }
        proof {
            let len = buf@.len() as int;
            vstd::arithmetic::div_mod::lemma_fundamental_div_mod(len, w as int);
            assert(count * w == len) by (nonlinear_arith)
                requires
                    len == w * (len / (w as int)) + len % (w as int),
                    len % (w as int) == 0,
                    count == len / (w as int),
            ;
            assert(start * w + count * w <= self.cap * w) by (nonlinear_arith)
                requires
                    start + count <= self.cap,
            ;
        }
        let ghost old_b = mapped_bytes(self.map);
        map_write(&mut self.map, start * w, buf);
        if start + count > self.len {
            self.len = start + count;
        }
        proof {
            let b = mapped_bytes(self.map);
            let target = splice(old(self).elems(), start as int, chunks(buf@, w as nat));
            assert(target.len() == self.len);
            assert forall|k: int| 0 <= k < self.len implies #[trigger] self.elems()[k] == target[k] by {
                Self::lemma_in_bounds(k, self.cap as int, w as int);
                if k < start {
                    assert(k * w + w <= start * w) by (nonlinear_arith)
                        requires
                            k + 1 <= start,
                            w > 0,
                    ;
                    lemma_piece_untouched(old_b, buf@, start * w, k, w as int);
                } else if k < start + count {
                    let m = k - start;
                    lemma_chunk_in_bounds(m, buf@.len() as int, w as int);
                    assert(k * w == start * w + m * w) by (nonlinear_arith)
                        requires
                            m == k - start,
                    ;
                    assert(b.subrange(k * w, k * w + w) =~= buf@.subrange(m * w, m * w + w));
                } else {
                    assert(start * w + count * w <= k * w) by (nonlinear_arith)
                        requires
                            start + count <= k,
                            w > 0,
                    ;
                    lemma_piece_untouched(old_b, buf@, start * w, k, w as int);
                }
            }
            assert(self.elems() =~= target);
        }
        Ok(())
    }

    fn read_at(&self, i: usize) -> (r: Result<E, MerkleError>) {
        if i >= self.len {
            return Err(MerkleError::OutOfBounds { index: i, len: self.len });
        }
        let w = E::byte_len();
        proof {
            Self::lemma_in_bounds(i as int, self.cap as int, w as int);
        }
        let bytes = map_read(&self.map, i * w, i * w + w);
        Ok(E::from_slice(bytes.as_slice()))
    }

    fn read_into(&self, i: usize, buf: &mut [u8]) -> (r: Result<(), MerkleError>) {
        if i >= self.len {
            return Err(MerkleError::OutOfBounds { index: i, len: self.len });
        }
        let w = E::byte_len();
        proof {
            Self::lemma_in_bounds(i as int, self.cap as int, w as int);
        }
        map_read_into(&self.map, i * w, buf);
        Ok(())
    }

    fn read_range(&self, start: usize, end: usize) -> (r: Result<Vec<E>, MerkleError>) {
        if end > self.len {
            return Err(MerkleError::OutOfBounds { index: end, len: self.len });
        }
        if start > end {
            return Err(MerkleError::OutOfBounds { index: start, len: end });
        }
        let mut out: Vec<E> = Vec::new();
        let mut k: usize = start;
        while k < end
            invariant
                self.inv(),
                start <= k <= end,
                end <= self.len,
                bytes_of(out@) == self.elems().subrange(start as int, k as int),
            decreases end - k,
        {
            let e = match self.read_at(k) {
                Ok(e) => e,
                Err(e) => return Err(e),
            };
            let ghost old_out = out@;
            out.push(e);
            proof {
                assert(bytes_of(out@) =~= bytes_of(old_out).push(e.bytes()));
                assert(bytes_of(out@) =~= self.elems().subrange(start as int, k + 1));
            }
            k = k + 1;
        }
        Ok(out)
    }

    fn len(&self) -> (r: usize) {
        self.len
    }

    fn is_empty(&self) -> (r: bool) {
        self.len == 0
    }

    fn push(&mut self, el: E) -> (r: Result<(), MerkleError>) {
        let l = self.len;
        self.write_at(el, l)
    }

    fn try_offload(&self) -> (r: bool) {
        false
    }
}

} // verus!
