use merkletree::merkle::{log2_pow2, next_pow2, MerkleTree};
use merkletree::{Algorithm, MerkleError, MmapStore, Store, VecStore, Xor128};

type Item = [u8; 16];
type VecTree = MerkleTree<Item, Xor128, VecStore<Item>>;
type MmapTree = MerkleTree<Item, Xor128, MmapStore<Item>>;

fn digest(bytes: &[u8]) -> Item {
    <Xor128 as Algorithm<Item>>::hash_data(bytes)
}

fn leaf(e: Item) -> Item {
    <Xor128 as Algorithm<Item>>::leaf(e)
}

fn node(l: Item, r: Item, h: usize) -> Item {
    <Xor128 as Algorithm<Item>>::node(l, r, h)
}

/// An input digested the way a 32-bit integer is fed to a hasher: its four
/// little-endian bytes.
fn int_item(x: i32) -> Item {
    digest(&x.to_le_bytes())
}

fn str_item(s: &str) -> Item {
    let mut bytes = s.as_bytes().to_vec();
    bytes.push(0xff);
    digest(&bytes)
}

fn b(prefix: &[u8]) -> Item {
    let mut out = [0u8; 16];
    out[..prefix.len()].copy_from_slice(prefix);
    out
}

#[test]
fn test_xor128_test_hasher_light() {
    let once = digest(b"1234567812345678");
    assert_eq!(once, *b"1234567812345678");
    let twice = digest(b"12345678123456781234567812345678");
    assert_eq!(twice, [0u8; 16]);
    let thrice = digest(b"123456781234567812345678123456781234567812345678");
    assert_eq!(thrice, *b"1234567812345678");
}

#[test]
fn test_xor128_test_from_slice() {
    let x = vec![b"ars".to_vec(), b"zxc".to_vec()];
    let mt = VecTree::from_data(&x).unwrap();
    assert_eq!(
        mt.read_range(0, 3).unwrap(),
        vec![
            [0, 97, 114, 115, 0, 0, 0, 0, 0, 0, 0, 0, 0, 0, 0, 0],
            [0, 122, 120, 99, 0, 0, 0, 0, 0, 0, 0, 0, 0, 0, 0, 0],
            [1, 0, 27, 10, 16, 0, 0, 0, 0, 0, 0, 0, 0, 0, 0, 0],
        ]
    );
    assert_eq!(mt.len(), 3);
    assert_eq!(mt.leafs(), 2);
    assert_eq!(mt.height(), 2);
    assert_eq!(mt.root(), [1, 0, 27, 10, 16, 0, 0, 0, 0, 0, 0, 0, 0, 0, 0, 0]);
}

#[test]
fn test_xor128_test_read_into() {
    let x = vec![b"ars".to_vec(), b"zxc".to_vec()];
    let mt = VecTree::from_data(&x).unwrap();
    let target_data = [
        [0, 97, 114, 115, 0, 0, 0, 0, 0, 0, 0, 0, 0, 0, 0, 0],
        [0, 122, 120, 99, 0, 0, 0, 0, 0, 0, 0, 0, 0, 0, 0, 0],
        [1, 0, 27, 10, 16, 0, 0, 0, 0, 0, 0, 0, 0, 0, 0, 0],
    ];

    let mut read_buffer: [u8; 16] = [0; 16];
    for (pos, &data) in target_data.iter().enumerate() {
        mt.read_into(pos, &mut read_buffer).unwrap();
        assert_eq!(read_buffer, data);
    }

    let mt2 = MmapTree::from_data(&x).unwrap();
    for (pos, &data) in target_data.iter().enumerate() {
        mt2.read_into(pos, &mut read_buffer).unwrap();
        assert_eq!(read_buffer, data);
    }
}

#[test]
fn test_xor128_test_from_iter() {
    let items: Vec<Item> = ["a", "b", "c"].iter().map(|x| str_item(x)).collect();
    let mt = VecTree::from_iter(&items).unwrap();
    assert_eq!(mt.len(), 7);
    assert_eq!(mt.height(), 3);
}

fn simple_answers() -> Vec<Vec<Item>> {
    vec![
        vec![b(&[0, 1]), b(&[0, 2]), b(&[1, 0, 3])],
        vec![
            b(&[0, 1]),
            b(&[0, 2]),
            b(&[0, 3]),
            b(&[0, 3]),
            b(&[1, 0, 3]),
            b(&[1, 0, 0]),
            b(&[1, 0, 0, 3]),
        ],
        vec![
            b(&[0, 1]),
            b(&[0, 2]),
            b(&[0, 3]),
            b(&[0, 4]),
            b(&[1, 0, 3]),
            b(&[1, 0, 7]),
            b(&[1, 0, 0, 4]),
        ],
        vec![
            b(&[0, 1]),
            b(&[0, 2]),
            b(&[0, 3]),
            b(&[0, 4]),
            b(&[0, 5]),
            b(&[0, 5]),
            b(&[1, 0, 3]),
            b(&[1, 0, 7]),
            b(&[1, 0, 0]),
            b(&[1, 0, 0]),
            b(&[1, 0, 0, 4]),
            b(&[1, 0, 0, 0]),
            b(&[1, 0, 0, 0, 4]),
        ],
        vec![
            b(&[0, 1]),
            b(&[0, 2]),
            b(&[0, 3]),
            b(&[0, 4]),
            b(&[0, 5]),
            b(&[0, 6]),
            b(&[1, 0, 3]),
            b(&[1, 0, 7]),
            b(&[1, 0, 3]),
            b(&[1, 0, 3]),
            b(&[1, 0, 0, 4]),
            b(&[1, 0, 0, 0]),
            b(&[1, 0, 0, 0, 4]),
        ],
        vec![
            b(&[0, 1]),
            b(&[0, 2]),
            b(&[0, 3]),
            b(&[0, 4]),
            b(&[0, 5]),
            b(&[0, 6]),
            b(&[0, 7]),
            b(&[0, 7]),
            b(&[1, 0, 3]),
            b(&[1, 0, 7]),
            b(&[1, 0, 3]),
            b(&[1, 0, 0]),
            b(&[1, 0, 0, 4]),
            b(&[1, 0, 0, 3]),
            b(&[1, 0, 0, 0, 7]),
        ],
    ]
}

#[test]
fn test_xor128_test_simple_tree() {
    let answer = simple_answers();
    for items in 2..8 {
        let inputs: Vec<Item> = [1, 2, 3, 4, 5, 6, 7, 8].iter().map(|x| int_item(*x)).take(items).collect();
        let mt_base = VecTree::from_iter(&inputs).unwrap();

        assert_eq!(mt_base.leafs(), items);
        assert_eq!(mt_base.height(), log2_pow2(next_pow2(mt_base.len())));
        assert_eq!(mt_base.read_range(0, mt_base.len()).unwrap(), answer[items - 2]);
        assert_eq!(mt_base.read_at(0).unwrap(), mt_base.read_at(0).unwrap());

        for i in 0..mt_base.leafs() {
            let p = mt_base.gen_proof(i).unwrap();
            assert!(p.validate::<Xor128>());
        }

        let leafs: Vec<u8> = inputs.iter().flat_map(|item| leaf(*item).to_vec()).collect();
        {
            let mt1 = VecTree::from_byte_slice(&leafs).unwrap();
            assert_eq!(mt1.leafs(), items);
            assert_eq!(mt1.height(), log2_pow2(next_pow2(mt1.len())));
            assert_eq!(mt1.read_range(0, mt1.len()).unwrap(), answer[items - 2]);
            for i in 0..mt1.leafs() {
                let p = mt1.gen_proof(i).unwrap();
                assert!(p.validate::<Xor128>());
            }
        }
        {
            let mt2 = MmapTree::from_byte_slice(&leafs).unwrap();
            assert_eq!(mt2.leafs(), items);
            assert_eq!(mt2.height(), log2_pow2(next_pow2(mt2.len())));
            assert_eq!(mt2.read_range(0, mt2.len()).unwrap(), answer[items - 2]);
            for i in 0..mt2.leafs() {
                let p = mt2.gen_proof(i).unwrap();
                assert!(p.validate::<Xor128>());
            }
        }
    }
}

#[test]
fn test_xor128_test_large_tree() {
    let count: usize = 4096 * 2;
    for i in 50..100usize {
        let inputs: Vec<Item> = (0..count)
            .map(|x| {
                let mut bytes = x.to_le_bytes().to_vec();
                bytes.extend_from_slice(&i.to_le_bytes());
                digest(&bytes)
            })
            .collect();
        let mt_vec = VecTree::from_iter(&inputs).unwrap();
        assert_eq!(mt_vec.len(), 2 * count - 1);

        let mt_map = MmapTree::from_par_iter(&inputs).unwrap();
        assert_eq!(mt_map.len(), 2 * count - 1);
        assert_eq!(mt_map.root(), mt_vec.root());
    }
}

#[test]
fn two_leaves_shape() {
    let inputs = vec![int_item(1), int_item(2)];
    let mt = VecTree::from_iter(&inputs).unwrap();
    assert_eq!(mt.height(), 2);
    assert_eq!(mt.len(), 3);
    assert_eq!(mt.root(), node(leaf(inputs[0]), leaf(inputs[1]), 0));
    assert_eq!(mt.root(), b(&[1, 0, 3]));
}

#[test]
fn three_leaves_shape() {
    let inputs = vec![int_item(1), int_item(2), int_item(3)];
    let mt = VecTree::from_iter(&inputs).unwrap();
    let h: Vec<Item> = inputs.iter().map(|x| leaf(*x)).collect();
    assert_eq!(mt.height(), 3);
    assert_eq!(mt.len(), 7);
    assert_eq!(mt.read_at(3).unwrap(), h[2]);
    assert_eq!(mt.root(), node(node(h[0], h[1], 0), node(h[2], h[2], 0), 1));
    assert_eq!(mt.root(), b(&[1, 0, 0, 3]));
}

#[test]
fn four_leaves_root() {
    let inputs: Vec<Item> = (1..=4).map(int_item).collect();
    let mt = VecTree::from_iter(&inputs).unwrap();
    assert_eq!(mt.root(), b(&[1, 0, 0, 4]));
}

#[test]
fn proof_of_first_leaf_of_four() {
    let inputs: Vec<Item> = (1..=4).map(int_item).collect();
    let h: Vec<Item> = inputs.iter().map(|x| leaf(*x)).collect();
    let mt = VecTree::from_iter(&inputs).unwrap();
    let p = mt.gen_proof(0).unwrap();
    assert_eq!(p.lemma().clone(), vec![h[0], h[1], node(h[2], h[3], 0), mt.root()]);
    assert_eq!(p.path().clone(), vec![true, true]);
    assert!(p.validate::<Xor128>());
    assert_eq!(p.item(), Some(h[0]));
    assert_eq!(p.root(), Some(mt.root()));
}

#[test]
fn proof_of_third_leaf_of_four() {
    let inputs: Vec<Item> = (1..=4).map(int_item).collect();
    let h: Vec<Item> = inputs.iter().map(|x| leaf(*x)).collect();
    let mt = VecTree::from_iter(&inputs).unwrap();
    let p = mt.gen_proof(2).unwrap();
    assert_eq!(p.lemma().clone(), vec![h[2], h[3], node(h[0], h[1], 0), mt.root()]);
    assert_eq!(p.path().clone(), vec![true, false]);
    assert!(p.validate::<Xor128>());
}

#[test]
fn tampered_proof_is_rejected() {
    let inputs: Vec<Item> = (1..=5).map(int_item).collect();
    let mt = VecTree::from_iter(&inputs).unwrap();
    let p = mt.gen_proof(4).unwrap();
    let mut lemma = p.lemma().clone();
    lemma[1][3] ^= 1;
    let bad = merkletree::Proof::new(lemma, p.path().clone());
    assert!(!bad.validate::<Xor128>());
    let short = merkletree::Proof::new(vec![mt.root()], vec![]);
    assert!(!short.validate::<Xor128>());
    let wrong_path = merkletree::Proof::new(p.lemma().clone(), vec![true]);
    assert!(!wrong_path.validate::<Xor128>());
}

#[test]
fn all_proofs_validate_on_odd_sizes() {
    for n in [2usize, 3, 5, 9, 17, 33, 100] {
        let inputs: Vec<Item> = (0..n as i32).map(int_item).collect();
        let mt = VecTree::from_iter(&inputs).unwrap();
        for i in 0..n {
            let p = mt.gen_proof(i).unwrap();
            assert_eq!(p.lemma().len(), mt.height() + 1);
            assert_eq!(p.path().len(), mt.height() - 1);
            assert!(p.validate::<Xor128>());
        }
    }
}

#[test]
fn leaves_read_back_after_hashing() {
    let inputs: Vec<Item> = (10..21).map(int_item).collect();
    let mt = MmapTree::from_iter(&inputs).unwrap();
    for (i, x) in inputs.iter().enumerate() {
        assert_eq!(mt.read_at(i).unwrap(), leaf(*x));
    }
}

#[test]
fn roots_agree_across_stores() {
    for n in 2..40 {
        let inputs: Vec<Item> = (0..n).map(int_item).collect();
        let a = VecTree::from_iter(&inputs).unwrap();
        let m = MmapTree::from_iter(&inputs).unwrap();
        let p = MmapTree::from_par_iter(&inputs).unwrap();
        assert_eq!(a.root(), m.root());
        assert_eq!(a.root(), p.root());
        assert_eq!(a.read_range(0, a.len()).unwrap(), m.read_range(0, m.len()).unwrap());
    }
}

#[test]
fn offload_keeps_contents() {
    let inputs: Vec<Item> = (0..7).map(int_item).collect();
    let mt = MmapTree::from_iter(&inputs).unwrap();
    let root = mt.root();
    let nodes = mt.read_range(0, mt.len()).unwrap();
    let proof = mt.gen_proof(3).unwrap();
    assert!(!mt.try_offload_store());
    assert_eq!(mt.root(), root);
    assert_eq!(mt.read_range(0, mt.len()).unwrap(), nodes);
    assert_eq!(mt.gen_proof(3).unwrap().lemma().clone(), proof.lemma().clone());
}

#[test]
fn power_of_two_sizes_have_no_padding() {
    for k in 1..8 {
        let n = 1usize << k;
        let inputs: Vec<Item> = (0..n as i32).map(int_item).collect();
        let mt = VecTree::from_iter(&inputs).unwrap();
        assert_eq!(mt.len(), 2 * n - 1);
        assert_eq!(mt.height(), k + 1);
    }
}

#[test]
fn byte_slice_matches_hashed_inputs() {
    for n in 2..20 {
        let inputs: Vec<Item> = (0..n).map(int_item).collect();
        let bytes: Vec<u8> = inputs.iter().flat_map(|x| leaf(*x).to_vec()).collect();
        let a = VecTree::from_iter(&inputs).unwrap();
        let c = MmapTree::from_byte_slice(&bytes).unwrap();
        assert_eq!(a.root(), c.root());
        for i in 0..n as usize {
            assert_eq!(a.gen_proof(i).unwrap().lemma().clone(), c.gen_proof(i).unwrap().lemma().clone());
        }
    }
}

#[test]
fn build_errors() {
    let one = vec![int_item(1)];
    assert_eq!(VecTree::from_iter(&one).err(), Some(MerkleError::NotEnoughLeaves { count: 1 }));
    let none: Vec<Item> = vec![];
    assert_eq!(MmapTree::from_par_iter(&none).err(), Some(MerkleError::NotEnoughLeaves { count: 0 }));
    assert_eq!(
        VecTree::from_byte_slice(&[0u8; 17]).err(),
        Some(MerkleError::UnalignedSlice { len: 17, width: 16 })
    );
    assert_eq!(VecTree::from_byte_slice(&[0u8; 16]).err(), Some(MerkleError::NotEnoughLeaves { count: 1 }));
}

#[test]
fn read_errors() {
    let inputs: Vec<Item> = (0..3).map(int_item).collect();
    let mt = VecTree::from_iter(&inputs).unwrap();
    assert_eq!(mt.read_at(7).err(), Some(MerkleError::OutOfBounds { index: 7, len: 7 }));
    assert_eq!(mt.read_range(2, 8).err(), Some(MerkleError::OutOfBounds { index: 8, len: 7 }));
    assert_eq!(mt.read_range(5, 4).err(), Some(MerkleError::OutOfBounds { index: 5, len: 4 }));
    assert_eq!(mt.gen_proof(3).err(), Some(MerkleError::OutOfBounds { index: 3, len: 3 }));
    let mut buf = [9u8; 16];
    assert_eq!(mt.read_into(9, &mut buf), Err(MerkleError::OutOfBounds { index: 9, len: 7 }));
    assert_eq!(buf, [9u8; 16]);
    assert_eq!(mt.read_range(2, 6).unwrap().len(), 4);
    assert!(!mt.is_empty());
}

#[test]
fn tree_in_caller_stores() {
    let inputs: Vec<Item> = (0..5).map(int_item).collect();
    let reference = VecTree::from_iter(&inputs).unwrap();

    let leaves = MmapStore::<Item>::new(6).unwrap();
    let top = MmapStore::<Item>::new(7).unwrap();
    let mt = MmapTree::from_data_with_store(&inputs, leaves, top).unwrap();
    assert_eq!(mt.root(), reference.root());

    let leaves = MmapStore::<Item>::new(6).unwrap();
    let top = MmapStore::<Item>::new(3).unwrap();
    assert_eq!(
        MmapTree::from_data_with_store(&inputs, leaves, top).err(),
        Some(MerkleError::InsufficientCapacity { requested: 1, available: 0 })
    );
}

#[test]
fn pow2_helpers() {
    assert_eq!(next_pow2(1), 1);
    assert_eq!(next_pow2(2), 2);
    assert_eq!(next_pow2(3), 4);
    assert_eq!(next_pow2(5), 8);
    assert_eq!(next_pow2(1024), 1024);
    assert_eq!(next_pow2(1025), 2048);
    assert_eq!(log2_pow2(1), 0);
    assert_eq!(log2_pow2(8), 3);
    assert_eq!(log2_pow2(4096), 12);
}

fn pow2_tree(n: usize, salt: usize) -> MmapTree {
    let inputs: Vec<Item> = (0..n)
        .map(|x| {
            let mut bytes = x.to_le_bytes().to_vec();
            bytes.extend_from_slice(&salt.to_le_bytes());
            digest(&bytes)
        })
        .collect();
    MmapTree::from_iter(&inputs).unwrap()
}

#[test]
fn test_various_trees_with_partial_cache() {
    let mut count = 256usize;
    while count <= 4096 {
        let height = log2_pow2(2 * next_pow2(count));
        for levels in 0..height - 1 {
            let mut mt_cache = pow2_tree(count, count);
            assert_eq!(mt_cache.len(), 2 * count - 1);
            assert_eq!(mt_cache.leafs(), count);
            let p = mt_cache.gen_proof(0).unwrap();
            assert!(p.validate::<Xor128>());

            let pat1 = mt_cache.gen_proof_and_partial_tree(0, levels).unwrap();
            assert!(pat1.proof.validate::<Xor128>());
            let pat2 = mt_cache.gen_proof_and_partial_tree(mt_cache.leafs() / 2, levels).unwrap();
            assert!(pat2.proof.validate::<Xor128>());

            let window = count >> levels;
            for j in (1..mt_cache.leafs()).step_by(7) {
                let p = mt_cache.gen_proof(j).unwrap();
                assert!(p.validate::<Xor128>());
                if j < window {
                    let left_proof = mt_cache.gen_proof_with_partial_tree(j, levels, &pat1.merkle_tree).unwrap();
                    assert!(left_proof.validate::<Xor128>());
                    assert_eq!(left_proof.lemma().clone(), p.lemma().clone());
                }
                if j >= mt_cache.leafs() / 2 && j < mt_cache.leafs() / 2 + window {
                    let right_proof = mt_cache.gen_proof_with_partial_tree(j, levels, &pat2.merkle_tree).unwrap();
                    assert!(right_proof.validate::<Xor128>());
                }
            }

            let mt_cache_len = mt_cache.len();
            match mt_cache.compact(levels) {
                Ok(x) => assert!(x),
                Err(_) => continue,
            }
            assert_eq!(mt_cache.len(), mt_cache_len);
            let pat1 = mt_cache.gen_proof_and_partial_tree(0, levels).unwrap();
            assert!(pat1.proof.validate::<Xor128>());
            let pat2 = mt_cache.gen_proof_and_partial_tree(mt_cache.leafs() / 2, levels).unwrap();
            assert!(pat2.proof.validate::<Xor128>());
            for j in (1..mt_cache.leafs()).step_by(5) {
                let pat = mt_cache.gen_proof_and_partial_tree(j, levels).unwrap();
                assert!(pat.proof.validate::<Xor128>());
            }
        }
        count <<= 2;
    }
}

#[test]
fn compacted_sixteen_leaves() {
    let mut mt = pow2_tree(16, 0);
    let root = mt.root();
    assert_eq!(mt.height(), 5);
    assert_eq!(mt.compact(1), Ok(true));
    for i in [0usize, 8, 15] {
        let pat = mt.gen_proof_and_partial_tree(i, 1).unwrap();
        assert!(pat.proof.validate::<Xor128>());
        assert_eq!(pat.proof.root(), Some(root));
        assert_eq!(pat.merkle_tree.leafs(), 8);
    }
    assert_eq!(mt.read_at(16), Err(MerkleError::OutOfCachedRange { index: 16 }));
    assert_eq!(mt.read_at(27), Err(MerkleError::OutOfCachedRange { index: 27 }));
    assert_eq!(mt.read_at(28).unwrap(), mt.read_range(28, 29).unwrap()[0]);
    assert_eq!(mt.len(), 31);
    assert_eq!(mt.read_range(0, 16).unwrap().len(), 16);
    assert_eq!(mt.read_range(10, 20).err(), Some(MerkleError::OutOfCachedRange { index: 16 }));
    assert_eq!(mt.read_at(30).unwrap(), root);
    assert_eq!(mt.gen_proof(3).err(), Some(MerkleError::OutOfCachedRange { index: 16 }));
}

#[test]
fn compaction_twice_changes_nothing() {
    let mut mt = pow2_tree(64, 3);
    assert_eq!(mt.compact(2), Ok(true));
    let nodes: Vec<Option<Item>> = (0..mt.len()).map(|i| mt.read_at(i).ok()).collect();
    assert_eq!(mt.compact(2), Ok(true));
    let again: Vec<Option<Item>> = (0..mt.len()).map(|i| mt.read_at(i).ok()).collect();
    assert_eq!(nodes, again);
    assert_eq!(mt.compact(1), Err(MerkleError::CompactionRefused { levels: 1 }));
}

#[test]
fn compaction_refusals() {
    let mut odd = MmapTree::from_iter(&(0..5).map(int_item).collect::<Vec<_>>()).unwrap();
    assert_eq!(odd.compact(0), Err(MerkleError::CompactionRefused { levels: 0 }));
    let mut mt = pow2_tree(16, 1);
    assert_eq!(mt.compact(3), Err(MerkleError::CompactionRefused { levels: 3 }));
    assert_eq!(mt.compact(9), Err(MerkleError::CompactionRefused { levels: 9 }));
    assert!(mt.gen_proof(5).is_ok());
    assert_eq!(
        mt.gen_proof_and_partial_tree(5, 4).err(),
        Some(MerkleError::InvalidCacheLevels { levels: 4 })
    );
    assert_eq!(
        odd.gen_proof_and_partial_tree(1, 0).err(),
        Some(MerkleError::InvalidCacheLevels { levels: 0 })
    );
    assert_eq!(
        mt.gen_proof_and_partial_tree(16, 1).err(),
        Some(MerkleError::OutOfBounds { index: 16, len: 16 })
    );
}

fn salted_inputs(count: usize, salt: usize) -> Vec<Item> {
    (0..count)
        .map(|x| {
            let mut bytes = x.to_le_bytes().to_vec();
            bytes.extend_from_slice(&salt.to_le_bytes());
            digest(&bytes)
        })
        .collect()
}

#[test]
fn test_level_cache_tree_v1() {
    let count = 4096 * 2;
    let height = log2_pow2(2 * next_pow2(count));
    let levels = height - 1 - 6;
    for i in 50..52usize {
        let mut mt = MmapTree::from_par_iter(&salted_inputs(count, i)).unwrap();
        assert_eq!(mt.len(), 2 * count - 1);
        for j in 0..mt.leafs() {
            let p = mt.gen_proof(j).unwrap();
            assert!(p.validate::<Xor128>());
        }
        assert_eq!(mt.compact(levels), Ok(true));
        assert_eq!(mt.len(), 2 * count - 1);
        for j in 0..mt.leafs() {
            let pat = mt.gen_proof_and_partial_tree(j, levels).unwrap();
            assert!(pat.proof.validate::<Xor128>());
        }
    }
}

#[test]
fn test_level_cache_tree_v2() {
    let count = 4096 * 2;
    let height = log2_pow2(2 * next_pow2(count));
    let levels = height - 1 - 6;
    for i in 0..2usize {
        let mt = MmapTree::from_par_iter(&salted_inputs(count, i)).unwrap();
        assert_eq!(mt.len(), 2 * count - 1);
        for j in 0..mt.leafs() {
            let p = mt.gen_proof(j).unwrap();
            assert!(p.validate::<Xor128>());
        }
        // The base layer, copied out as bytes, rebuilds the same tree.
        let base_layer: Vec<u8> = mt.read_range(0, count).unwrap().iter().flat_map(|e| e.to_vec()).collect();
        assert_eq!(base_layer.len(), count * 16);
        let mut rebuilt = MmapTree::from_byte_slice(&base_layer).unwrap();
        assert_eq!(rebuilt.root(), mt.root());
        assert_eq!(rebuilt.compact(levels), Ok(true));
        assert_eq!(rebuilt.len(), 2 * count - 1);
        for j in 0..rebuilt.leafs() {
            let pat = rebuilt.gen_proof_and_partial_tree(j, levels).unwrap();
            assert!(pat.proof.validate::<Xor128>());
        }
    }
}

#[test]
fn test_various_trees_with_partial_cache_v2_only() {
    let mut count = 256usize;
    while count <= 1024 {
        let height = log2_pow2(2 * next_pow2(count));
        for levels in 0..height {
            let mut mt_cache = VecTree::from_iter(&salted_inputs(count, count)).unwrap();
            assert_eq!(mt_cache.len(), 2 * count - 1);
            assert_eq!(mt_cache.leafs(), count);
            for j in 0..mt_cache.leafs() {
                let p = mt_cache.gen_proof(j).unwrap();
                assert!(p.validate::<Xor128>());
            }
            let mt_cache_len = mt_cache.len();
            match mt_cache.compact(levels) {
                Ok(x) => assert!(x),
                Err(_) => continue,
            }
            assert_eq!(mt_cache.len(), mt_cache_len);
            for j in (0..mt_cache.leafs()).step_by(3) {
                let pat = mt_cache.gen_proof_and_partial_tree(j, levels).unwrap();
                assert!(pat.proof.validate::<Xor128>());
            }
        }
        count <<= 1;
    }
}

#[test]
fn partial_tree_of_another_window_is_refused() {
    let mt = pow2_tree(32, 9);
    let pat = mt.gen_proof_and_partial_tree(3, 2).unwrap();
    assert_eq!(pat.merkle_tree.leafs(), 8);
    let same = mt.gen_proof_with_partial_tree(6, 2, &pat.merkle_tree).unwrap();
    assert!(same.validate::<Xor128>());
    assert_eq!(same.lemma().clone(), mt.gen_proof(6).unwrap().lemma().clone());
    assert_eq!(
        mt.gen_proof_with_partial_tree(9, 2, &pat.merkle_tree).err(),
        Some(MerkleError::PartialTreeMismatch)
    );
}

#[test]
fn tree_taken_back_from_stores() {
    for n in [2usize, 3, 5, 8, 13] {
        let inputs: Vec<Item> = (0..n as i32).map(int_item).collect();
        let mt = VecTree::from_iter(&inputs).unwrap();
        let padded = n + n % 2;
        let leaves = mt.read_range(0, padded).unwrap();
        let top = mt.read_range(padded, mt.len()).unwrap();

        let revived = VecTree::from_data_store(VecStore(leaves.clone()), VecStore(top.clone()), n).unwrap();
        assert_eq!(revived.root(), mt.root());
        assert_eq!(revived.len(), mt.len());
        assert_eq!(revived.height(), mt.height());
        assert!(revived.gen_proof(n - 1).unwrap().validate::<Xor128>());

        let leaf_bytes: Vec<u8> = leaves.iter().flat_map(|e| e.to_vec()).collect();
        let top_bytes: Vec<u8> = top.iter().flat_map(|e| e.to_vec()).collect();
        let ml = MmapStore::<Item>::new_from_slice(padded, &leaf_bytes).unwrap();
        let mtop = MmapStore::<Item>::new_from_slice(top.len(), &top_bytes).unwrap();
        let revived_map = MmapTree::from_data_store(ml, mtop, n).unwrap();
        assert_eq!(revived_map.root(), mt.root());

        let mut bad_top = top.clone();
        bad_top[0][5] ^= 0x40;
        assert_eq!(
            VecTree::from_data_store(VecStore(leaves.clone()), VecStore(bad_top), n).err(),
            Some(MerkleError::InconsistentStore)
        );
        assert_eq!(
            VecTree::from_data_store(VecStore(leaves.clone()), VecStore(top.clone()), n + 5).err(),
            Some(MerkleError::InconsistentStore)
        );
        assert_eq!(
            VecTree::from_data_store(VecStore(leaves), VecStore(top), 1).err(),
            Some(MerkleError::NotEnoughLeaves { count: 1 })
        );
    }
}

#[test]
fn proofs_from_windows_handed_in() {
    let mut mt = pow2_tree(64, 21);
    let base: Vec<Item> = mt.read_range(0, 64).unwrap();
    assert_eq!(mt.compact(2), Ok(true));
    for i in [0usize, 17, 40, 63] {
        let (start, end) = mt.window_range(i, 2).unwrap();
        assert_eq!(end - start, 16);
        assert!(start <= i && i < end);
        let pat = mt.gen_proof_and_partial_tree_from_window(i, 2, &base[start..end]).unwrap();
        assert!(pat.proof.validate::<Xor128>());
        assert_eq!(pat.proof.root(), Some(mt.root()));
        let direct = mt.gen_proof_and_partial_tree(i, 2).unwrap();
        assert_eq!(pat.proof.lemma().clone(), direct.proof.lemma().clone());

        let mut forged = base[start..end].to_vec();
        forged[3][7] ^= 1;
        assert_eq!(
            mt.gen_proof_and_partial_tree_from_window(i, 2, &forged).err(),
            Some(MerkleError::PartialTreeMismatch)
        );
        assert_eq!(
            mt.gen_proof_and_partial_tree_from_window(i, 2, &base[start..end - 1]).err(),
            Some(MerkleError::PartialTreeMismatch)
        );
    }
    assert_eq!(mt.window_range(64, 2).err(), Some(MerkleError::OutOfBounds { index: 64, len: 64 }));
    assert_eq!(mt.window_range(3, 6).err(), Some(MerkleError::InvalidCacheLevels { levels: 6 }));
}

#[test]
fn compacted_sixteen_leaves_without_base() {
    let mut mt = pow2_tree(16, 5);
    let root = mt.root();
    let base: Vec<Item> = mt.read_range(0, 16).unwrap();
    assert_eq!(mt.compact_v2(1), Ok(true));
    assert_eq!(mt.len(), 31);
    assert_eq!(mt.read_at(0), Err(MerkleError::OutOfCachedRange { index: 0 }));
    assert_eq!(mt.read_at(30).unwrap(), root);
    assert_eq!(mt.gen_proof_and_partial_tree(3, 1).err(), Some(MerkleError::OutOfCachedRange { index: 0 }));
    for i in [0usize, 8, 15] {
        let (start, end) = mt.window_range(i, 1).unwrap();
        let pat = mt.gen_proof_and_partial_tree_from_window(i, 1, &base[start..end]).unwrap();
        assert!(pat.proof.validate::<Xor128>());
        assert_eq!(pat.proof.root(), Some(root));
        assert_eq!(
            mt.gen_proof_with_partial_tree(i, 1, &pat.merkle_tree).err(),
            Some(MerkleError::OutOfCachedRange { index: start })
        );
    }
    let kept: Vec<Option<Item>> = (0..mt.len()).map(|i| mt.read_at(i).ok()).collect();
    assert_eq!(mt.compact_v2(1), Ok(true));
    let again: Vec<Option<Item>> = (0..mt.len()).map(|i| mt.read_at(i).ok()).collect();
    assert_eq!(kept, again);
    assert_eq!(kept.iter().filter(|x| x.is_some()).count(), 3);
}

#[test]
fn power_of_two_test() {
    let yes = [1usize, 2, 4, 64, 1 << 20];
    let no = [0usize, 3, 6, 12, 100, (1 << 20) + 1];
    for n in yes {
        assert!(merkletree::sizes::is_power_of_two(n));
    }
    for n in no {
        assert!(!merkletree::sizes::is_power_of_two(n));
    }
}
