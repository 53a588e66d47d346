use vstd::prelude::*;

verus! {

/// A fixed-width value stored in a tree: leaves and internal nodes alike.
///
/// An element is seen through its bytes; every element of a type has the
/// same number of them.
pub trait Element: Sized + Copy + Send + Sync {
    /// Number of bytes of every element of this type.
    spec fn width() -> nat;

    /// The bytes of this element.
    spec fn bytes(self) -> Seq<u8>;

    proof fn lemma_bytes_len(e: Self)
        ensures
            e.bytes().len() == Self::width(),
            Self::width() > 0,
    ;

    /// Number of bytes of every element of this type.
    fn byte_len() -> (r: usize)
        ensures
            r == Self::width(),
            r > 0,
    ;

    /// Builds the element whose bytes are `bytes`.
    fn from_slice(bytes: &[u8]) -> (r: Self)
        requires
            bytes@.len() == Self::width(),
        ensures
            r.bytes() == bytes@,
    ;

    /// Copies the bytes of this element into `bytes`.
    fn copy_to_slice(&self, bytes: &mut [u8])
        requires
            old(bytes)@.len() == Self::width(),
        ensures
            final(bytes)@ == self.bytes(),
    ;

    /// Whether two elements have the same bytes.
    fn same_bytes(&self, other: &Self) -> (r: bool)
        ensures
            r == (self.bytes() == other.bytes()),
    ;
}

impl Element for [u8; 16] {
    open spec fn width() -> nat {
        16
    }

    open spec fn bytes(self) -> Seq<u8> {
        self@
    }

    proof fn lemma_bytes_len(e: Self) {
    }

    fn byte_len() -> (r: usize) {
        16
    }

    fn from_slice(bytes: &[u8]) -> (r: Self) {
        let mut el: [u8; 16] = [0u8; 16];
        let mut k: usize = 0;
        while k < 16
            invariant
                k <= 16,
                bytes@.len() == 16,
                forall|m: int| 0 <= m < k ==> el@[m] == bytes@[m],
            decreases 16 - k,
        {
            el[k] = bytes[k];
            k = k + 1;
        }
        assert(el@ =~= bytes@);
        el
    }

    fn copy_to_slice(&self, bytes: &mut [u8]) {
        let mut k: usize = 0;
        while k < 16
            invariant
                k <= 16,
                bytes@.len() == 16,
                forall|m: int| 0 <= m < k ==> bytes@[m] == self@[m],
            decreases 16 - k,
        {
            bytes[k] = self[k];
            k = k + 1;
        }
        assert(bytes@ =~= self@);
    }

    fn same_bytes(&self, other: &Self) -> (r: bool) {
        let mut k: usize = 0;
        while k < 16
            invariant
                k <= 16,
                forall|m: int| 0 <= m < k ==> self@[m] == other@[m],
            decreases 16 - k,
        {
            if self[k] != other[k] {
                return false;
            }
            k = k + 1;
        }
        assert(self@ =~= other@);
        true
    }
}

impl Element for [u8; 32] {
    open spec fn width() -> nat {
        32
    }

    open spec fn bytes(self) -> Seq<u8> {
        self@
    }

    proof fn lemma_bytes_len(e: Self) {
    }

    fn byte_len() -> (r: usize) {
        32
    }

    fn from_slice(bytes: &[u8]) -> (r: Self) {
        let mut el: [u8; 32] = [0u8; 32];
        let mut k: usize = 0;
        while k < 32
            invariant
                k <= 32,
                bytes@.len() == 32,
                forall|m: int| 0 <= m < k ==> el@[m] == bytes@[m],
            decreases 32 - k,
        {
            el[k] = bytes[k];
            k = k + 1;
        }
        assert(el@ =~= bytes@);
        el
    }

    fn copy_to_slice(&self, bytes: &mut [u8]) {
        let mut k: usize = 0;
        while k < 32
            invariant
                k <= 32,
                bytes@.len() == 32,
                forall|m: int| 0 <= m < k ==> bytes@[m] == self@[m],
            decreases 32 - k,
        {
            bytes[k] = self[k];
            k = k + 1;
        }
        assert(bytes@ =~= self@);
    }

    fn same_bytes(&self, other: &Self) -> (r: bool) {
        let mut k: usize = 0;
        while k < 32
            invariant
                k <= 32,
                forall|m: int| 0 <= m < k ==> self@[m] == other@[m],
            decreases 32 - k,
        {
            if self[k] != other[k] {
                return false;
            }
            k = k + 1;
        }
        assert(self@ =~= other@);
        true
    }
}

} // verus!
