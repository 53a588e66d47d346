use vstd::prelude::*;
use vstd::slice::slice_subrange;
use crate::element::Element;
use crate::error::MerkleError;

verus! {

/// `b` cut into consecutive pieces of `w` bytes (a trailing partial piece is
/// dropped).
pub open spec fn chunks(b: Seq<u8>, w: nat) -> Seq<Seq<u8>> {
    Seq::new(b.len() / w, |i: int| b.subrange(i * w, i * w + w))
}

/// The bytes of each element of `s`.
pub open spec fn bytes_of<E: Element>(s: Seq<E>) -> Seq<Seq<u8>> {
    Seq::new(s.len(), |i: int| s[i].bytes())
}

/// `old` with the positions from `start` overwritten by `new`, growing where
/// `new` reaches past its end.
pub open spec fn splice(old: Seq<Seq<u8>>, start: int, new: Seq<Seq<u8>>) -> Seq<Seq<u8>> {
    if start + new.len() < old.len() {
        old.subrange(0, start) + new + old.subrange(start + new.len(), old.len() as int)
    } else {
        old.subrange(0, start) + new
    }
}

/// Positional storage of fixed-width elements.
///
/// A store is seen as the sequence of the bytes of the elements it holds
/// (`elems`) and the number of elements it can hold (`capacity`).
pub trait Store<E: Element>: Sized {
    spec fn elems(&self) -> Seq<Seq<u8>>;

    spec fn capacity(&self) -> nat;

    /// Well-formedness of the store's representation.
    spec fn inv(&self) -> bool;

    /// Capacity of a store made by `new(size)` or `new_from_slice(size, _)`.
    spec fn capacity_for(size: nat) -> nat;

    /// Making a store with room for `size` elements cannot fail.
    spec fn new_succeeds(size: nat) -> bool;

    /// `try_offload` releases this store's memory.
    spec fn offloadable(&self) -> bool;

    /// Some store of this type can release its memory.
    spec fn may_offload() -> bool;

    proof fn lemma_offloadable(&self)
        ensures
            self.offloadable() ==> Self::may_offload(),
    ;

    proof fn lemma_inv(&self)
        requires
            self.inv(),
        ensures
            self.elems().len() <= self.capacity(),
            self.capacity() <= usize::MAX,
            forall|i: int| 0 <= i < self.elems().len() ==> #[trigger] self.elems()[i].len() == E::width(),
    ;

    /// An empty store with room for at least `size` elements.
    fn new(size: usize) -> (r: Result<Self, MerkleError>)
        requires
            size * E::width() <= usize::MAX,
        ensures
            match r {
                Ok(s) => s.inv() && s.elems() == Seq::<Seq<u8>>::empty() && s.capacity()
                    == Self::capacity_for(size as nat) && s.capacity() >= size,
                Err(e) => e == MerkleError::IoFailure,
            },
            Self::new_succeeds(size as nat) ==> r is Ok,
    ;

    /// A store with room for at least `size` elements that holds the
    /// elements whose bytes are laid end to end in `data`.
    fn new_from_slice(size: usize, data: &[u8]) -> (r: Result<Self, MerkleError>)
        requires
            size * E::width() <= usize::MAX,
        ensures
            data@.len() % E::width() != 0 ==> r == Err::<Self, MerkleError>(
                MerkleError::UnalignedSlice { len: data@.len() as usize, width: E::width() as usize },
            ),
            data@.len() % E::width() == 0 && data@.len() / E::width() > size ==> r == Err::<Self, MerkleError>(
                MerkleError::InsufficientCapacity {
                    requested: (data@.len() / E::width()) as usize,
                    available: size,
                },
            ),
            match r {
                Ok(s) => s.inv() && s.elems() == chunks(data@, E::width()) && s.capacity()
                    == Self::capacity_for(size as nat) && s.capacity() >= size,
                Err(e) => e == MerkleError::IoFailure || (data@.len() % E::width() != 0
                    && e is UnalignedSlice) || (data@.len() % E::width() == 0 && data@.len()
                    / E::width() > size && e is InsufficientCapacity),
            },
            Self::new_succeeds(size as nat) && data@.len() % E::width() == 0 && data@.len() / E::width()
                <= size ==> r is Ok,
    ;

    /// Overwrites position `i`, or appends when `i` is the length.
    fn write_at(&mut self, el: E, i: usize) -> (r: Result<(), MerkleError>)
        requires
            old(self).inv(),
        ensures
            final(self).inv(),
            final(self).capacity() == old(self).capacity(),
            i > old(self).elems().len() ==> r == Err::<(), MerkleError>(
                MerkleError::OutOfBounds { index: i, len: old(self).elems().len() as usize },
            ),
            i == old(self).elems().len() && i >= old(self).capacity() ==> r == Err::<(), MerkleError>(
                MerkleError::InsufficientCapacity { requested: 1, available: 0 },
            ),
            r is Err ==> final(self).elems() == old(self).elems(),
            i < old(self).elems().len() ==> r is Ok && final(self).elems() == old(self).elems().update(
                i as int,
                el.bytes(),
            ),
            i == old(self).elems().len() && i < old(self).capacity() ==> r is Ok && final(self).elems()
                == old(self).elems().push(el.bytes()),
    ;

    /// Writes the elements laid end to end in `buf` from position `start` on.
    fn write_range(&mut self, buf: &[u8], start: usize) -> (r: Result<(), MerkleError>)
        requires
            old(self).inv(),
        ensures
            final(self).inv(),
            final(self).capacity() == old(self).capacity(),
            buf@.len() % E::width() != 0 ==> r == Err::<(), MerkleError>(
                MerkleError::UnalignedSlice { len: buf@.len() as usize, width: E::width() as usize },
            ),
            buf@.len() % E::width() == 0 && start > old(self).elems().len() ==> r == Err::<(), MerkleError>(
                MerkleError::OutOfBounds { index: start, len: old(self).elems().len() as usize },
            ),
            buf@.len() % E::width() == 0 && start <= old(self).elems().len() && start + buf@.len()
                / E::width() > old(self).capacity() ==> r == Err::<(), MerkleError>(
                MerkleError::InsufficientCapacity {
                    requested: (buf@.len() / E::width()) as usize,
                    available: (old(self).capacity() - start) as usize,
                },
            ),
            r is Err ==> final(self).elems() == old(self).elems(),
            buf@.len() % E::width() == 0 && start <= old(self).elems().len() && start + buf@.len()
                / E::width() <= old(self).capacity() ==> r is Ok && final(self).elems() == splice(
                old(self).elems(),
                start as int,
                chunks(buf@, E::width()),
            ),
    ;

    fn read_at(&self, i: usize) -> (r: Result<E, MerkleError>)
        requires
            self.inv(),
        ensures
            i < self.elems().len() ==> r is Ok && r->Ok_0.bytes() == self.elems()[i as int],
            i >= self.elems().len() ==> r == Err::<E, MerkleError>(
                MerkleError::OutOfBounds { index: i, len: self.elems().len() as usize },
            ),
    ;

    /// Copies the bytes of the element at `i` into `buf`.
    fn read_into(&self, i: usize, buf: &mut [u8]) -> (r: Result<(), MerkleError>)
        requires
            self.inv(),
            old(buf)@.len() == E::width(),
        ensures
            i < self.elems().len() ==> r is Ok && final(buf)@ == self.elems()[i as int],
            i >= self.elems().len() ==> r == Err::<(), MerkleError>(
                MerkleError::OutOfBounds { index: i, len: self.elems().len() as usize },
            ) && final(buf)@ == old(buf)@,
    ;

    /// The elements at positions `start..end`.
    fn read_range(&self, start: usize, end: usize) -> (r: Result<Vec<E>, MerkleError>)
        requires
            self.inv(),
        ensures
            start <= end <= self.elems().len() ==> r is Ok && bytes_of(r->Ok_0@) == self.elems().subrange(
                start as int,
                end as int,
            ),
            end > self.elems().len() ==> r == Err::<Vec<E>, MerkleError>(
                MerkleError::OutOfBounds { index: end, len: self.elems().len() as usize },
            ),
            end <= self.elems().len() && start > end ==> r == Err::<Vec<E>, MerkleError>(
                MerkleError::OutOfBounds { index: start, len: end },
            ),
    ;

    fn len(&self) -> (r: usize)
        requires
            self.inv(),
        ensures
            r == self.elems().len(),
    ;

    fn is_empty(&self) -> (r: bool)
        requires
            self.inv(),
        ensures
            r == (self.elems().len() == 0),
    ;

    /// Appends `el`.
    fn push(&mut self, el: E) -> (r: Result<(), MerkleError>)
        requires
            old(self).inv(),
        ensures
            final(self).inv(),
            final(self).capacity() == old(self).capacity(),
            old(self).elems().len() < old(self).capacity() ==> r is Ok && final(self).elems()
                == old(self).elems().push(el.bytes()),
            old(self).elems().len() >= old(self).capacity() ==> r == Err::<(), MerkleError>(
                MerkleError::InsufficientCapacity { requested: 1, available: 0 },
            ) && final(self).elems() == old(self).elems(),
    ;

    /// Asks the store to release its memory until it is next used; `true`
    /// when it did. What the store holds is the same either way.
    fn try_offload(&self) -> (r: bool)
        ensures
            r == self.offloadable(),
    ;
}

/// Byte range of element `i` among `len` elements of `width` bytes laid
/// end to end.
pub fn element_span(i: usize, len: usize, width: usize) -> (r: Result<(usize, usize), MerkleError>)
    requires
        len * width <= usize::MAX,
    ensures
        i < len ==> r is Ok && r->Ok_0.0 == i * width && r->Ok_0.1 == i * width + width,
        i >= len ==> r == Err::<(usize, usize), MerkleError>(MerkleError::OutOfBounds { index: i, len }),
{
    if i >= len {
        return Err(MerkleError::OutOfBounds { index: i, len });
    }
    proof {
        assert(i * width + width <= len * width) by (nonlinear_arith)
            requires
                i < len,
        ;
    }
    Ok((i * width, i * width + width))
}

/// Byte range of the elements `start..end` among `len` elements of `width`
/// bytes laid end to end.
pub fn range_span(start: usize, end: usize, len: usize, width: usize) -> (r: Result<(usize, usize), MerkleError>)
    requires
        len * width <= usize::MAX,
    ensures
        start <= end <= len ==> r is Ok && r->Ok_0.0 == start * width && r->Ok_0.1 == end * width,
        end > len ==> r == Err::<(usize, usize), MerkleError>(MerkleError::OutOfBounds { index: end, len }),
        end <= len && start > end ==> r == Err::<(usize, usize), MerkleError>(
            MerkleError::OutOfBounds { index: start, len: end },
        ),
{
    if end > len {
        return Err(MerkleError::OutOfBounds { index: end, len });
    }
    if start > end {
        return Err(MerkleError::OutOfBounds { index: start, len: end });
    }
    proof {
        assert(start * width <= end * width && end * width <= len * width) by (nonlinear_arith)
            requires
                start <= end <= len,
        ;
    }
    Ok((start * width, end * width))
}

/// Where an element written at position `i` goes, in a store of `len`
/// elements that can hold `capacity`: its byte range, when the write is
/// allowed (overwriting, or appending at `len` while there is room).
pub fn write_span(i: usize, len: usize, capacity: usize, width: usize) -> (r: Result<
    (usize, usize),
    MerkleError,
>)
    requires
        len <= capacity,
        capacity * width <= usize::MAX,
    ensures
        i > len ==> r == Err::<(usize, usize), MerkleError>(MerkleError::OutOfBounds { index: i, len }),
        i == len && len == capacity ==> r == Err::<(usize, usize), MerkleError>(
            MerkleError::InsufficientCapacity { requested: 1, available: 0 },
        ),
        i < len || (i == len && len < capacity) ==> r is Ok && r->Ok_0.0 == i * width && r->Ok_0.1
            == i * width + width,
{
    if i > len {
        return Err(MerkleError::OutOfBounds { index: i, len });
    }
    if i == len && len == capacity {
        return Err(MerkleError::InsufficientCapacity { requested: 1, available: 0 });
    }
    element_span(i, capacity, width)
}

/// Number of elements of `width` bytes laid end to end in `data_len`
/// bytes, when they fit in a store of `size` elements.
pub fn slice_count(data_len: usize, size: usize, width: usize) -> (r: Result<usize, MerkleError>)
    requires
        width > 0,
    ensures
        data_len % width != 0 ==> r == Err::<usize, MerkleError>(
            MerkleError::UnalignedSlice { len: data_len, width },
        ),
        data_len % width == 0 && data_len / width > size ==> r == Err::<usize, MerkleError>(
            MerkleError::InsufficientCapacity { requested: data_len / width, available: size },
        ),
        data_len % width == 0 && data_len / width <= size ==> r == Ok::<usize, MerkleError>(
            data_len / width,
        ),
{
    if data_len % width != 0 {
        return Err(MerkleError::UnalignedSlice { len: data_len, width });
    }
    let count = data_len / width;
    if count > size {
        return Err(MerkleError::InsufficientCapacity { requested: count, available: size });
    }
    Ok(count)
}

/// Whether two stores hold the same elements.
pub fn same_elems<E: Element, K1: Store<E>, K2: Store<E>>(a: &K1, b: &K2) -> (r: bool)
    requires
        a.inv(),
        b.inv(),
    ensures
        r == (a.elems() == b.elems()),
{
    let n = a.len();
    if n != b.len() {
        return false;
    }
    let mut k: usize = 0;
    while k < n
        invariant
            a.inv(),
            b.inv(),
            n == a.elems().len(),
            n == b.elems().len(),
            k <= n,
            forall|t: int| 0 <= t < k ==> #[trigger] a.elems()[t] == b.elems()[t],
        decreases n - k,
    {
        let x = match a.read_at(k) {
            Ok(e) => e,
            Err(_) => return false,
        };
        let y = match b.read_at(k) {
            Ok(e) => e,
            Err(_) => return false,
        };
        if !x.same_bytes(&y) {
            return false;
        }
        k = k + 1;
    }
    proof {
        assert(a.elems() =~= b.elems());
    }
    true
}

} // verus!
