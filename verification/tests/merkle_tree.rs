use blake2_rfc::blake2b::{blake2b, Blake2b};
use classic_structures::merkle_tree::{calculate_merkle_root, tree_length_for_input, MerkleTree};

const HASH_LENGTH: usize = 32;

fn hash_two(left: &Vec<u8>, right: &Vec<u8>) -> Vec<u8> {
    let mut blake = Blake2b::new(HASH_LENGTH);
    blake.update(&left);
    blake.update(&right);

    let mut return_val = vec![0u8; HASH_LENGTH];
    return_val.copy_from_slice(blake.finalize().as_bytes());
    return_val
}

#[test]
fn it_calculates_length_for_a_size_two_input() {
    let size = 2;
    assert_eq!(tree_length_for_input(size), 3);
}

#[test]
fn it_calculates_length_for_a_size_three_input() {
    let size = 3;
    assert_eq!(tree_length_for_input(size), 6);
}

#[test]
fn it_makes_a_merkle_tree_from_a_single_hash() {
    let bytes = vec![0xAA; 32];
    let hash = blake2b(32, &[], &bytes);//hash(&bytes, 32);
    let expected_root = hash.as_bytes();
    assert_eq!(calculate_merkle_root(hash_two, &vec![hash.as_bytes().to_vec()]), expected_root);
}

#[test]
fn it_makes_a_empty_merkle_tree_and_append_a_single_hash() {
    let bytes = vec![0xAA; 32];
    let hash = blake2b(32, &[], &bytes);//hash(&bytes, 32);

    let mut merkle_tree = MerkleTree::create(hash_two,&Vec::new());
    merkle_tree.append_hash(hash.as_bytes().to_vec());
    let expected_root = hash.as_bytes();
    assert_eq!(merkle_tree.root(), expected_root);
}

#[test]
fn it_makes_a_merkle_tree_from_two_hashes() {
    let bytes_1 = vec![0xAA; 32];
    let bytes_2 = vec![0xBB; 32];

    let hash_1 = blake2b(32, &[], &bytes_1);//hash(&bytes_1, 32);
    let hash_2 = blake2b(32, &[], &bytes_2);//= hash(&bytes_2, 32);

    let hashes = vec![hash_1.as_bytes().to_vec().clone(), hash_2.as_bytes().to_vec().clone()];
    let expected_root = hash_two(&hash_1.as_bytes().to_vec(), &hash_2.as_bytes().to_vec());

    assert_eq!(calculate_merkle_root(hash_two, &hashes), expected_root);
}

#[test]
fn it_makes_a_merkle_tree_from_one_hashes_and_append_a_hash() {
    let bytes_1 = vec![0xFF; 32];
    let bytes_2 = vec![0xAA; 32];

    let hash_1 = blake2b(32, &[], &bytes_1);//hash(&bytes_1, 32);
    let hash_2 = blake2b(32, &[], &bytes_2);//= hash(&bytes_2, 32);

    let hashes = vec![hash_1.as_bytes().to_vec().clone()];
    let expected_root = hash_two(&hash_1.as_bytes().to_vec(), &hash_2.as_bytes().to_vec());

    let mut merkle_tree = MerkleTree::create(hash_two, &hashes);
    merkle_tree.append_hash(hash_2.as_bytes().to_vec().clone());
    assert_eq!(merkle_tree.root(), expected_root);
}

#[test]
fn it_makes_a_merkle_tree_from_three_hashes() {
    let bytes_1 = vec![0xAA; 32];
    let bytes_2 = vec![0xBB; 32];
    let bytes_3 = vec![0xCC; 32];

    let hash_1 = blake2b(32, &[], &bytes_1);//hash(&bytes_1, 32);
    let hash_2 = blake2b(32, &[], &bytes_2);//hash(&bytes_2, 32);
    let hash_3 = blake2b(32, &[], &bytes_3);//hash(&bytes_3, 32);

    let hashes = vec![hash_1.as_bytes().to_vec().clone(), hash_2.as_bytes().to_vec().clone(), hash_3.as_bytes().to_vec().clone()];

    let two_hash_1 = hash_two(&hash_1.as_bytes().to_vec(), &hash_2.as_bytes().to_vec());
    let two_hash_2 = hash_two(&hash_3.as_bytes().to_vec(), &hash_3.as_bytes().to_vec());

    let expected_root = hash_two(&two_hash_1, &two_hash_2);

    assert_eq!(calculate_merkle_root(hash_two, &hashes), expected_root);
}

#[test]
fn it_makes_a_merkle_tree_from_two_hashes_and_append_a_hash() {
    let bytes_1 = vec![0xAA; 32];
    let bytes_2 = vec![0xBB; 32];
    let bytes_3 = vec![0xCC; 32];

    let hash_1 = blake2b(32, &[], &bytes_1);//hash(&bytes_1, 32);
    let hash_2 = blake2b(32, &[], &bytes_2);//hash(&bytes_2, 32);
    let hash_3 = blake2b(32, &[], &bytes_3);//hash(&bytes_3, 32);

    let hashes = vec![hash_1.as_bytes().to_vec().clone(), hash_2.as_bytes().to_vec().clone()];

    let two_hash_1 = hash_two(&hash_1.as_bytes().to_vec(), &hash_2.as_bytes().to_vec());
    let two_hash_2 = hash_two(&hash_3.as_bytes().to_vec(), &hash_3.as_bytes().to_vec());

    let expected_root = hash_two(&two_hash_1, &two_hash_2);

    let mut merkle_tree = MerkleTree::create(hash_two, &hashes);
    merkle_tree.append_hash(hash_3.as_bytes().to_vec().clone());

    assert_eq!(merkle_tree.root(), expected_root);
}
