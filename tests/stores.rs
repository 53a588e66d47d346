use merkletree::store::{element_span, range_span, slice_count, write_span};
use merkletree::{MerkleError, MmapStore, Store, VecStore};

type Item = [u8; 16];

fn el(x: u8) -> Item {
    [x; 16]
}

fn exercise<K: Store<Item>>(mut s: K) {
    assert!(s.is_empty());
    s.push(el(1)).unwrap();
    s.push(el(2)).unwrap();
    assert_eq!(s.len(), 2);
    assert_eq!(s.read_at(1).unwrap(), el(2));
    s.write_at(el(7), 0).unwrap();
    s.write_at(el(3), 2).unwrap();
    assert_eq!(s.read_range(0, 3).unwrap(), vec![el(7), el(2), el(3)]);
    assert_eq!(s.write_at(el(4), 5), Err(MerkleError::OutOfBounds { index: 5, len: 3 }));

    let mut bytes = vec![5u8; 16];
    bytes.extend_from_slice(&[6u8; 16]);
    s.write_range(&bytes, 2).unwrap();
    assert_eq!(s.read_range(0, 4).unwrap(), vec![el(7), el(2), el(5), el(6)]);
    assert_eq!(s.write_range(&[1u8; 5], 0), Err(MerkleError::UnalignedSlice { len: 5, width: 16 }));
    assert_eq!(s.write_range(&bytes, 9), Err(MerkleError::OutOfBounds { index: 9, len: 4 }));

    let mut buf = [0u8; 16];
    s.read_into(3, &mut buf).unwrap();
    assert_eq!(buf, el(6));
    assert_eq!(s.read_at(4), Err(MerkleError::OutOfBounds { index: 4, len: 4 }));
    assert_eq!(s.read_range(1, 5).err(), Some(MerkleError::OutOfBounds { index: 5, len: 4 }));
    assert!(!s.try_offload());
}

#[test]
fn vec_store_operations() {
    exercise(VecStore::<Item>::new(4).unwrap());
}

#[test]
fn mmap_store_operations() {
    exercise(MmapStore::<Item>::new(8).unwrap());
}

#[test]
fn mmap_store_capacity() {
    let mut s = MmapStore::<Item>::new(1).unwrap();
    s.push(el(1)).unwrap();
    assert_eq!(s.push(el(2)), Err(MerkleError::InsufficientCapacity { requested: 1, available: 0 }));
    assert_eq!(s.read_at(0).unwrap(), el(1));
    assert_eq!(
        s.write_range(&[0u8; 32], 0),
        Err(MerkleError::InsufficientCapacity { requested: 2, available: 1 })
    );
    assert!(MmapStore::<Item>::new(0).is_err());
}

#[test]
fn stores_from_slices() {
    let mut bytes = vec![1u8; 16];
    bytes.extend_from_slice(&[2u8; 16]);
    let v = VecStore::<Item>::new_from_slice(4, &bytes).unwrap();
    let m = MmapStore::<Item>::new_from_slice(4, &bytes).unwrap();
    assert_eq!(v.read_range(0, 2).unwrap(), vec![el(1), el(2)]);
    assert_eq!(m.read_range(0, 2).unwrap(), vec![el(1), el(2)]);
    assert_eq!(m.len(), 2);
    assert_eq!(
        MmapStore::<Item>::new_from_slice(1, &bytes).err(),
        Some(MerkleError::InsufficientCapacity { requested: 2, available: 1 })
    );
    assert_eq!(
        VecStore::<Item>::new_from_slice(4, &bytes[..20]).err(),
        Some(MerkleError::UnalignedSlice { len: 20, width: 16 })
    );
}

#[test]
fn wide_elements() {
    let a = [3u8; 32];
    let mut s = VecStore::<[u8; 32]>::new(2).unwrap();
    s.push(a).unwrap();
    let mut buf = [0u8; 32];
    s.read_into(0, &mut buf).unwrap();
    assert_eq!(buf, a);
}

#[test]
fn span_helpers() {
    assert_eq!(element_span(2, 4, 16), Ok((32, 48)));
    assert_eq!(element_span(4, 4, 16), Err(MerkleError::OutOfBounds { index: 4, len: 4 }));
    assert_eq!(range_span(1, 3, 4, 16), Ok((16, 48)));
    assert_eq!(range_span(1, 5, 4, 16), Err(MerkleError::OutOfBounds { index: 5, len: 4 }));
    assert_eq!(range_span(3, 1, 4, 16), Err(MerkleError::OutOfBounds { index: 3, len: 1 }));
    assert_eq!(write_span(2, 2, 3, 16), Ok((32, 48)));
    assert_eq!(write_span(0, 2, 3, 16), Ok((0, 16)));
    assert_eq!(write_span(3, 3, 3, 16), Err(MerkleError::InsufficientCapacity { requested: 1, available: 0 }));
    assert_eq!(write_span(3, 2, 3, 16), Err(MerkleError::OutOfBounds { index: 3, len: 2 }));
    assert_eq!(slice_count(48, 3, 16), Ok(3));
    assert_eq!(slice_count(48, 2, 16), Err(MerkleError::InsufficientCapacity { requested: 3, available: 2 }));
    assert_eq!(slice_count(47, 9, 16), Err(MerkleError::UnalignedSlice { len: 47, width: 16 }));
}

#[test]
fn same_elems_compares_contents() {
    let mut a = VecStore::<Item>::new(3).unwrap();
    let mut b = MmapStore::<Item>::new(3).unwrap();
    a.push(el(1)).unwrap();
    b.push(el(1)).unwrap();
    assert!(merkletree::store::same_elems(&a, &b));
    b.push(el(2)).unwrap();
    assert!(!merkletree::store::same_elems(&a, &b));
    a.push(el(3)).unwrap();
    assert!(!merkletree::store::same_elems(&a, &b));
}

#[test]
fn mmap_store_has_exact_capacity() {
    let mut s = MmapStore::<Item>::new(2).unwrap();
    s.push(el(1)).unwrap();
    s.push(el(2)).unwrap();
    assert_eq!(s.push(el(3)), Err(MerkleError::InsufficientCapacity { requested: 1, available: 0 }));
}
