use vstd::prelude::*;
use crate::element::Element;

verus! {

/// A hash algorithm over elements of type `E`.
///
/// `leaf` hashes a leaf element, `node` hashes two children that stand at
/// level `height` (leaves are level 0), and `hash_data` digests arbitrary
/// input bytes into an element.
pub trait Algorithm<E: Element> {
    /// What `leaf` returns, over bytes.
    spec fn leaf_spec(e: Seq<u8>) -> Seq<u8>;

    /// What `node` returns, over bytes.
    spec fn node_spec(left: Seq<u8>, right: Seq<u8>, height: nat) -> Seq<u8>;

    /// What `hash_data` returns, over bytes.
    spec fn data_spec(data: Seq<u8>) -> Seq<u8>;

    /// Leaf and node hashes of elements are elements again.
    proof fn lemma_output_width(a: Seq<u8>, b: Seq<u8>, height: nat)
        requires
            a.len() == E::width(),
            b.len() == E::width(),
        ensures
            Self::leaf_spec(a).len() == E::width(),
            Self::node_spec(a, b, height).len() == E::width(),
    ;

    fn leaf(e: E) -> (r: E)
        ensures
            r.bytes() == Self::leaf_spec(e.bytes()),
    ;

    fn node(left: E, right: E, height: usize) -> (r: E)
        ensures
            r.bytes() == Self::node_spec(left.bytes(), right.bytes(), height as nat),
    ;

    fn hash_data(data: &[u8]) -> (r: E)
        ensures
            r.bytes() == Self::data_spec(data@),
    ;
}

/// Prefix byte written before a leaf.
pub const LEAF: u8 = 0x00;

/// Prefix byte written before the two children of a node.
pub const INTERIOR: u8 = 0x01;

/// Sixteen zero bytes.
pub open spec fn zero16() -> Seq<u8> {
    Seq::new(16, |i: int| 0u8)
}

/// The XOR digest of a byte stream: byte `k` of the stream is XORed into
/// position `k % 16` of a 16-byte accumulator that starts at zero.
pub open spec fn xor_fold(s: Seq<u8>) -> Seq<u8>
    decreases s.len(),
{
    if s.len() == 0 {
        zero16()
    } else {
        let prev = xor_fold(s.drop_last());
        let k = (s.len() - 1) % 16;
        prev.update(k, prev[k] ^ s.last())
    }
}

proof fn lemma_xor_fold_len(s: Seq<u8>)
    ensures
        xor_fold(s).len() == 16,
    decreases s.len(),
{
    if s.len() > 0 {
        lemma_xor_fold_len(s.drop_last());
    }
}

/// A 16-byte XOR digest: cheap and transparent, meant for tests and
/// examples rather than for security.
pub struct Xor128;

/// Digests `stream` with the XOR accumulator.
fn xor_digest(stream: &Vec<u8>) -> (r: [u8; 16])
    ensures
        r@ == xor_fold(stream@),
{
    let mut acc: [u8; 16] = [0u8; 16];
    let mut k: usize = 0;
    proof {
        assert(stream@.subrange(0, 0) =~= Seq::<u8>::empty());
        assert(acc@ =~= zero16());
    }
    while k < stream.len()
        invariant
            k <= stream@.len(),
            acc@ == xor_fold(stream@.subrange(0, k as int)),
        decreases stream@.len() - k,
    {
        proof {
            lemma_xor_fold_len(stream@.subrange(0, k as int));
            let t = stream@.subrange(0, k as int + 1);
            assert(t.drop_last() =~= stream@.subrange(0, k as int));
        }
        let pos: usize = k % 16;
        acc[pos] = acc[pos] ^ stream[k];
        k = k + 1;
        proof {
            let t = stream@.subrange(0, k as int);
            assert(acc@ =~= xor_fold(t));
        }
    }
    proof {
        assert(stream@.subrange(0, stream@.len() as int) =~= stream@);
    }
    acc
}

/// Appends `bytes` to `out`.
fn append_bytes(out: &mut Vec<u8>, bytes: &[u8])
    ensures
        final(out)@ == old(out)@ + bytes@,
{
    let mut k: usize = 0;
    while k < bytes.len()
        invariant
            k <= bytes@.len(),
            out@ == old(out)@ + bytes@.subrange(0, k as int),
        decreases bytes@.len() - k,
    {
        out.push(bytes[k]);
        k = k + 1;
        proof {
            assert(out@ =~= old(out)@ + bytes@.subrange(0, k as int));
        }
    }
    proof {
        assert(bytes@.subrange(0, bytes@.len() as int) =~= bytes@);
    }
}

impl Algorithm<[u8; 16]> for Xor128 {
    open spec fn leaf_spec(e: Seq<u8>) -> Seq<u8> {
        xor_fold(seq![LEAF] + e)
    }

    open spec fn node_spec(left: Seq<u8>, right: Seq<u8>, height: nat) -> Seq<u8> {
        xor_fold(seq![INTERIOR] + left + right)
    }

    open spec fn data_spec(data: Seq<u8>) -> Seq<u8> {
        xor_fold(data)
    }

    proof fn lemma_output_width(a: Seq<u8>, b: Seq<u8>, height: nat) {
        lemma_xor_fold_len(seq![LEAF] + a);
        lemma_xor_fold_len(seq![INTERIOR] + a + b);
    }

    fn leaf(e: [u8; 16]) -> (r: [u8; 16]) {
        let mut stream: Vec<u8> = Vec::new();
        stream.push(LEAF);
        append_bytes(&mut stream, e.as_slice());
        proof {
            assert(stream@ =~= seq![LEAF] + e@);
        }
        xor_digest(&stream)
    }

    fn node(left: [u8; 16], right: [u8; 16], height: usize) -> (r: [u8; 16]) {
        let mut stream: Vec<u8> = Vec::new();
        stream.push(INTERIOR);
        append_bytes(&mut stream, left.as_slice());
        append_bytes(&mut stream, right.as_slice());
        proof {
            assert(stream@ =~= seq![INTERIOR] + left@ + right@);
        }
        xor_digest(&stream)
    }

    fn hash_data(data: &[u8]) -> (r: [u8; 16]) {
        let mut stream: Vec<u8> = Vec::new();
        append_bytes(&mut stream, data);
        proof {
            assert(stream@ =~= data@);
        }
        xor_digest(&stream)
    }
}

} // verus!
