use merkle_tree::hash::{bytes_less, digest_greater, hash_leaf, hash_pair, to_hex};
use merkle_tree::{verify, EmptyInputError, MerkleTree, Node};
use std::collections::HashSet;

const LEAF_0: &str = "5FECEB66FFC86F38D952786C6D696C79C2DBC239DD4E91B46729D73A27FB57E9";
const LEAF_1: &str = "6B86B273FF34FCE19D6B804EFF5A3F5747ADA4EAA22F1D49C01E52DDB7875B4B";
const PAIR_0_1: &str = "22F0AFF2B63533188E2B50101EE5EFDBFE10626D72A23B3F48F459B07EA501F8";
const ROOT_0_TO_7: &str = "38AA134309A4A0A8702EC909D5D68DEF078173561268AEEAAA8F99DBCFFADE86";

fn items_of(tree: &MerkleTree) -> Vec<u8> {
    tree.get_leafs().iter().map(|leaf| *leaf.get_data().unwrap()).collect()
}

/// Verify that all data entered into the tree are contained inside the tree.
#[test]
fn test_leafs_contains_data() {
    let data = vec![0, 1, 2, 3, 4, 5, 6, 7];
    let mut set: HashSet<u8> = HashSet::new();
    set.extend(data.iter());

    let mtree = MerkleTree::new(&data).unwrap();
    let leafs = mtree.get_leafs();
    let leaf_data: Vec<u8> = leafs.iter().map(|x| *x.get_data().unwrap()).collect();
    let mut leaf_set: HashSet<u8> = HashSet::new();
    leaf_set.extend(leaf_data.iter());

    assert!(set.is_subset(&leaf_set));
    assert!(set.is_superset(&leaf_set));
}

/// Each layer adds one digest to the path, on top of the leaf's own.
#[test]
fn test_proof_len() {
    let data = vec![0, 1, 2, 3, 4, 5, 6, 7];
    let mtree = MerkleTree::new(&data).unwrap();
    let proofs = mtree.get_proof(&1).unwrap();

    assert_eq!(proofs.len(), 4);
}

#[test]
fn empty_input_is_rejected() {
    let built = MerkleTree::new(&Vec::new());
    assert_eq!(built.err(), Some(EmptyInputError));
}

#[test]
fn leaf_digests_are_sha256_of_the_hex_spelling() {
    assert_eq!(hash_leaf(0), LEAF_0);
    assert_eq!(hash_leaf(1), LEAF_1);
    assert_eq!(
        hash_leaf(10),
        "559AEAD08264D5795D3909718CDD05ABD49572E84FE55590EEF31A88A08FDFFD"
    );
    assert_eq!(
        hash_leaf(16),
        "4A44DC15364204A80FE80E9039455CC1608281820FE2B24F1E5233ADE6AF1DD5"
    );
    assert_eq!(
        hash_leaf(255),
        "096AA8510B0DC13190F1F237DB8E29AD6EA34E2F779F2088C7826248535FBF6A"
    );
}

#[test]
fn pair_digest_takes_the_smaller_digest_first() {
    assert_eq!(hash_pair(LEAF_0, LEAF_1), PAIR_0_1);
    assert_eq!(hash_pair(LEAF_1, LEAF_0), PAIR_0_1);
}

#[test]
fn digests_are_64_upper_case_hex_digits() {
    let tree = MerkleTree::new(&vec![9, 8, 7, 6, 5]).unwrap();
    let mut all: Vec<String> = tree.get_proof(&7).unwrap();
    all.push(tree.root_hash().to_string());
    for digest in all {
        assert_eq!(digest.len(), 64);
        assert!(digest.chars().all(|c| c.is_ascii_digit() || ('A'..='F').contains(&c)));
    }
}

#[test]
fn to_hex_writes_two_upper_case_digits_per_byte() {
    assert_eq!(to_hex(&[]), "");
    assert_eq!(to_hex(&[0x00, 0x0a, 0xa0, 0xff, 0x19]), "000AA0FF19");
}

#[test]
fn bytes_less_is_lexicographic() {
    assert!(bytes_less(b"", b"a"));
    assert!(!bytes_less(b"", b""));
    assert!(!bytes_less(b"a", b""));
    assert!(bytes_less(b"ab", b"abc"));
    assert!(bytes_less(b"abc", b"abd"));
    assert!(!bytes_less(b"abd", b"abc"));
    assert!(bytes_less(b"Z", b"a"));
    assert!(!bytes_less(b"same", b"same"));
}

#[test]
fn digest_greater_follows_the_order_of_str() {
    assert!(digest_greater(LEAF_1, LEAF_0));
    assert!(!digest_greater(LEAF_0, LEAF_1));
    assert!(!digest_greater(LEAF_0, LEAF_0));
    assert_eq!(digest_greater("b", "ab"), "b" > "ab");
    assert_eq!(digest_greater("é", "z"), "é" > "z");
}

#[test]
fn root_digests_of_known_trees() {
    let root = |items: Vec<u8>| MerkleTree::new(&items).unwrap().root_hash().to_string();
    assert_eq!(root(vec![0, 1]), PAIR_0_1);
    assert_eq!(root(vec![0, 1, 2, 3, 4, 5, 6, 7]), ROOT_0_TO_7);
    assert_eq!(
        root(vec![0, 1, 2]),
        "EB2D5E547C35E40929C1F04B0DD9642C02FBD8E7335A117123571C4B46F7FADE"
    );
    assert_eq!(
        root(vec![1, 2, 3, 4, 5]),
        "B9C64CAE193ABF937AEBD567647C614B4D2A490E1BEB78FB7939A2527A133FAB"
    );
    assert_eq!(
        root(vec![3, 1, 4, 1, 5, 9]),
        "70A52A0630EE59295552E6A5E60B627D27527194DB13F5C0DA352EB76BA737BC"
    );
}

#[test]
fn single_item_is_paired_with_the_padding_leaf() {
    let tree = MerkleTree::new(&vec![5]).unwrap();
    assert_eq!(
        tree.root_hash(),
        "9BDC4ACEC86AE407F0C2FF1C574CC9273F4677B7929E7684AD1F194235242F22"
    );
    assert_eq!(tree.leaves(), vec![0, 5]);
    assert!(tree.root.get_data().is_none());
}

#[test]
fn eight_items_need_no_padding() {
    let tree = MerkleTree::new(&vec![0, 1, 2, 3, 4, 5, 6, 7]).unwrap();
    let path = tree.get_proof(&7).unwrap();
    assert_eq!(path.len(), 4);
    assert_eq!(
        path,
        vec![
            "7902699BE42C8A8E46FBBB4501726517E86B22C56A189F7625A6DA49081B2451",
            "E7F6C011776E8DB7CD330B54174FD76F7D0216B612387A5FFCFB81E6F0919683",
            "878725B1BEC897BDBA90F5BC0DBFAA39FEEE2A0F79C9F85C91F972011C879E59",
            "B74D3F66908FB9D74DD7DACD039ED3479E923133017DDDCE35C14146BDC86180",
        ]
    );
    assert!(verify(&path, tree.root_hash()));
    assert!(tree.get_proof(&99).is_none());
    assert_eq!(tree.leaves().len(), 8);
}

#[test]
fn three_items_get_one_padding_leaf() {
    let tree = MerkleTree::new(&vec![0, 1, 2]).unwrap();
    assert_eq!(tree.leaves().len(), 4);
    assert_eq!(tree.get_leafs().len(), 4);
    assert_eq!(tree.leaves(), vec![0, 2, 0, 1]);
}

#[test]
fn every_level_of_odd_length_is_padded() {
    let tree = MerkleTree::new(&vec![1, 2, 3, 4, 5]).unwrap();
    assert_eq!(tree.leaves(), vec![0, 0, 5, 4, 3, 1, 2]);
    for item in [1u8, 2, 3, 4, 5] {
        let path = tree.get_proof(&item).unwrap();
        assert!(verify(&path, tree.root_hash()));
    }
    let to_padding = tree.get_proof(&0).unwrap();
    assert_eq!(to_padding.len(), 3);
    assert_eq!(tree.get_proof(&5).unwrap().len(), 4);
}

#[test]
fn leaves_and_leaf_nodes_agree() {
    let tree = MerkleTree::new(&vec![3, 1, 4, 1, 5, 9]).unwrap();
    assert_eq!(tree.leaves(), vec![3, 1, 4, 1, 9, 5, 0]);
    assert_eq!(items_of(&tree), tree.leaves());
    for leaf in tree.get_leafs() {
        assert_eq!(leaf.get_hash(), hash_leaf(*leaf.get_data().unwrap()));
    }
}

#[test]
fn every_item_is_included() {
    for len in 1..=20u8 {
        let items: Vec<u8> = (0..len).map(|i| i.wrapping_mul(37).wrapping_add(11)).collect();
        let tree = MerkleTree::new(&items).unwrap();
        let leaves = tree.leaves();
        for item in &items {
            assert!(leaves.contains(item));
            let path = tree.get_proof(item).unwrap();
            assert_eq!(path[0], hash_leaf(*item));
            assert!(verify(&path, tree.root_hash()));
        }
    }
}

#[test]
fn absent_items_have_no_path() {
    let tree = MerkleTree::new(&vec![1, 2, 3, 4]).unwrap();
    assert!(tree.get_proof(&0).is_none());
    assert!(tree.get_proof(&5).is_none());
    assert!(tree.get_proof(&255).is_none());
    let padded = MerkleTree::new(&vec![1, 2, 3]).unwrap();
    assert!(padded.get_proof(&0).is_some());
    assert!(padded.get_proof(&4).is_none());
}

#[test]
fn duplicate_items_give_the_first_path_from_the_left() {
    let tree = MerkleTree::new(&vec![7, 7, 7, 7]).unwrap();
    let path = tree.get_proof(&7).unwrap();
    assert_eq!(path.len(), 3);
    assert_eq!(path[0], hash_leaf(7));
    assert_eq!(path[1], hash_leaf(7));
    assert!(verify(&path, tree.root_hash()));
}

#[test]
fn building_twice_gives_the_same_root() {
    let items = vec![200, 3, 3, 17, 0, 42, 99];
    let first = MerkleTree::new(&items).unwrap();
    let second = MerkleTree::new(&items).unwrap();
    assert_eq!(first.root_hash(), second.root_hash());
    assert_eq!(first.leaves(), second.leaves());
}

#[test]
fn swapping_siblings_keeps_the_root() {
    let base = MerkleTree::new(&vec![0, 1, 2, 3, 4, 5, 6, 7]).unwrap();
    let swapped = MerkleTree::new(&vec![0, 1, 3, 2, 4, 5, 6, 7]).unwrap();
    assert_eq!(swapped.root_hash(), base.root_hash());
    let last = MerkleTree::new(&vec![0, 1, 2, 3, 4, 5, 7, 6]).unwrap();
    assert_eq!(last.root_hash(), ROOT_0_TO_7);
}

#[test]
fn swapping_across_pairs_changes_the_root() {
    let base = MerkleTree::new(&vec![0, 1, 2, 3]).unwrap();
    let crossed = MerkleTree::new(&vec![0, 2, 1, 3]).unwrap();
    assert_ne!(crossed.root_hash(), base.root_hash());
}

#[test]
fn tampered_paths_are_rejected() {
    let tree = MerkleTree::new(&vec![0, 1, 2, 3, 4, 5, 6, 7]).unwrap();
    let path = tree.get_proof(&7).unwrap();
    for position in 0..path.len() {
        for index in [0usize, 31, 63] {
            let mut bytes = path[position].clone().into_bytes();
            bytes[index] ^= 1;
            let mut tampered = path.clone();
            tampered[position] = String::from_utf8(bytes).unwrap();
            assert!(!verify(&tampered, tree.root_hash()));
        }
    }
}

#[test]
fn verify_rejects_empty_and_misplaced_paths() {
    let tree = MerkleTree::new(&vec![0, 1, 2, 3]).unwrap();
    let path = tree.get_proof(&2).unwrap();
    assert!(verify(&path, tree.root_hash()));
    assert!(!verify(&Vec::new(), tree.root_hash()));
    assert!(!verify(&path, LEAF_0));
    assert!(!verify(&path[..2].to_vec(), tree.root_hash()));
    let other = MerkleTree::new(&vec![0, 1, 2, 4]).unwrap();
    assert!(!verify(&path, other.root_hash()));
}

#[test]
fn verify_accepts_a_single_digest_only_for_itself() {
    assert!(verify(&vec![LEAF_0.to_string()], LEAF_0));
    assert!(!verify(&vec![LEAF_0.to_string()], LEAF_1));
    assert!(verify(&vec![LEAF_1.to_string(), LEAF_0.to_string()], PAIR_0_1));
}

#[test]
fn internal_nodes_store_the_smaller_digest_first() {
    let node = Node::new_internal((Box::new(Node::new_leaf(1)), Box::new(Node::new_leaf(0))));
    assert_eq!(node.get_hash(), PAIR_0_1);
    assert!(node.get_data().is_none());
    match &node {
        Node::InternalNode { children, .. } => {
            assert_eq!(Node::get_children_hashes(children), [LEAF_0, LEAF_1]);
            assert_eq!(children.0.get_data(), Some(&0));
            assert_eq!(children.1.get_data(), Some(&1));
        }
        Node::LeafNode { .. } => panic!("an internal node was made"),
    }
}

#[test]
fn leaf_nodes_hold_their_item() {
    let leaf = Node::new_leaf(1);
    assert_eq!(leaf.get_hash(), LEAF_1);
    assert_eq!(leaf.get_data(), Some(&1));
}

#[test]
fn clone_copies_the_whole_tree() {
    let tree = MerkleTree::new(&vec![4, 5, 6]).unwrap();
    let copy = tree.clone();
    assert_eq!(copy.root_hash(), tree.root_hash());
    assert_eq!(copy.leaves(), tree.leaves());
    assert_eq!(copy.get_proof(&6), tree.get_proof(&6));
}
