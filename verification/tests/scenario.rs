use sparse_merkle::bits::convert_to_bits;
use sparse_merkle::element::Element;
use sparse_merkle::proofs::Proof;
use sparse_merkle::tree::{BinaryTree, TreeError};

fn one_scalar(first_byte: u8) -> Element {
    let mut scalar = vec![0u8; 32];
    scalar[0] = first_byte;
    Element {
        value: vec![scalar],
    }
}

#[test]
fn scenario_height_four_index_five() {
    let mut tree = BinaryTree::initialize(Element::default(), 4);
    let bits = convert_to_bits(4, 5);
    assert_eq!(bits, vec![false, true, false, true]);

    let element = one_scalar(7);
    tree.add_element(bits.clone(), &element).unwrap();

    let siblings = tree.get_sibling_hashes(&bits).unwrap();
    assert_eq!(siblings.len(), 4);
    let proof = Proof {
        sibling_hashes: siblings,
    };
    assert_eq!(&proof.calculate_root(bits.clone(), &element), tree.top());
    assert!(proof.validate(bits.clone(), &element, tree.top()));

    let other = one_scalar(8);
    assert!(!proof.validate(bits, &other, tree.top()));
}

#[test]
fn empty_tree_every_leaf_provable() {
    let tree = BinaryTree::initialize(Element::default(), 3);
    for index in 0..8u64 {
        let bits = convert_to_bits(3, index);
        let proof = Proof {
            sibling_hashes: tree.get_sibling_hashes(&bits).unwrap(),
        };
        assert!(proof.validate(bits, &Element::default(), tree.top()));
    }
}

#[test]
fn update_leaves_other_leaves_provable() {
    let mut tree = BinaryTree::initialize(Element::default(), 3);
    let p1 = convert_to_bits(3, 2);
    tree.add_element(p1.clone(), &one_scalar(9)).unwrap();

    for index in 0..8u64 {
        if index == 2 {
            continue;
        }
        let p2 = convert_to_bits(3, index);
        let proof = Proof {
            sibling_hashes: tree.get_sibling_hashes(&p2).unwrap(),
        };
        assert!(proof.validate(p2, &Element::default(), tree.top()));
    }

    let proof = Proof {
        sibling_hashes: tree.get_sibling_hashes(&p1).unwrap(),
    };
    assert!(proof.validate(p1, &one_scalar(9), tree.top()));
}

#[test]
fn compute_hash_is_deterministic() {
    let a = one_scalar(3);
    let b = one_scalar(3);
    assert_eq!(a.compute_hash(), b.compute_hash());
    assert_ne!(a.compute_hash(), one_scalar(4).compute_hash());
}

#[test]
fn compute_hash_known_vector() {
    // SHA-256 of the empty byte string.
    let expected: [u8; 32] = [
        0xe3, 0xb0, 0xc4, 0x42, 0x98, 0xfc, 0x1c, 0x14, 0x9a, 0xfb, 0xf4, 0xc8, 0x99, 0x6f,
        0xb9, 0x24, 0x27, 0xae, 0x41, 0xe4, 0x64, 0x9b, 0x93, 0x4c, 0xa4, 0x95, 0x99, 0x1b,
        0x78, 0x52, 0xb8, 0x55,
    ];
    let empty = Element { value: Vec::new() };
    assert_eq!(empty.compute_hash(), expected.to_vec());
}

#[test]
fn compute_hash_does_not_echo_input() {
    let short = Element {
        value: vec![vec![1u8, 2, 3]],
    };
    let digest = short.compute_hash();
    assert_eq!(digest.len(), 32);
    assert_ne!(digest, vec![1u8, 2, 3]);
    let zeros = Element {
        value: vec![vec![0u8; 32]],
    };
    assert_ne!(zeros.compute_hash(), vec![0u8; 32]);
}

#[test]
fn convert_to_bits_round_trip() {
    let bits = convert_to_bits(4, 5);
    assert_eq!(bits, vec![false, true, false, true]);
    let mut back: u64 = 0;
    for b in &bits {
        back = back * 2 + if *b { 1 } else { 0 };
    }
    assert_eq!(back, 5);

    // An index wider than the path keeps only its low-order bits.
    assert_eq!(convert_to_bits(3, 11), vec![false, true, true]);
    assert_eq!(convert_to_bits(0, 9), Vec::<bool>::new());
}

#[test]
fn malformed_path_is_rejected() {
    let mut tree = BinaryTree::initialize(Element::default(), 4);
    let short = convert_to_bits(3, 1);
    assert_eq!(
        tree.get_sibling_hashes(&short).unwrap_err(),
        TreeError::MalformedPath
    );
    assert_eq!(
        tree.add_element(short, &one_scalar(1)).unwrap_err(),
        TreeError::MalformedPath
    );
    // The failed update left the tree unchanged.
    let bits = convert_to_bits(4, 0);
    let proof = Proof {
        sibling_hashes: tree.get_sibling_hashes(&bits).unwrap(),
    };
    assert!(proof.validate(bits, &Element::default(), tree.top()));
}

#[test]
fn height_zero_tree() {
    let tree = BinaryTree::initialize(Element::default(), 0);
    assert_eq!(tree.height(), 0);
    assert_eq!(tree.top(), &Element::default().compute_hash());
    let bits = Vec::new();
    let proof = Proof {
        sibling_hashes: tree.get_sibling_hashes(&bits).unwrap(),
    };
    assert!(proof.validate(bits, &Element::default(), tree.top()));
}
