use ff::{Field, PrimeField};
use pasta_curves::Fp;
use sparse_merkle::bits::convert_to_bits;
use sparse_merkle::element::Element;
use sparse_merkle::proofs::Proof;
use sparse_merkle::tree::BinaryTree;

fn scalar_bytes(f: Fp) -> Vec<u8> {
    f.to_repr().as_ref().to_vec()
}

#[test]
fn binary_tree_test() {
    const HEIGHT: usize = 32;
    let empty_element = Element::default();
    let mut tree = BinaryTree::initialize(empty_element.clone(), HEIGHT);

    for i in 0..50 {
        let index = i;
        let bits_index = convert_to_bits(HEIGHT, index);
        let element = Element {
            value: vec![scalar_bytes(Fp::random(&mut rand::thread_rng()))],
        };

        let path_siblings = tree.get_sibling_hashes(&bits_index).unwrap();
        let proof = Proof {
            sibling_hashes: path_siblings,
        };
        assert!(!proof.validate(bits_index.clone(), &element, tree.top()));
        tree.add_element(bits_index.clone(), &element).unwrap();
        let new_path_siblings = tree.get_sibling_hashes(&bits_index).unwrap();
        let new_proof = Proof {
            sibling_hashes: new_path_siblings,
        };
        assert!(new_proof.validate(bits_index, &element, tree.top()));
    }
}
