use merkle_tree::digest::hash;
use merkle_tree::digest::hash_pair;
use merkle_tree::tree::MerkleError;
use merkle_tree::tree::MerkleTree;

fn items(words: &[&str]) -> Vec<String> {
    words.iter().map(|w| w.to_string()).collect()
}

fn build(words: &[&str]) -> MerkleTree {
    match MerkleTree::new(items(words)) {
        Ok(tree) => tree,
        Err(e) => panic!("no tree: {:?}", e),
    }
}

#[test]
fn empty_input_is_rejected() {
    match MerkleTree::new(Vec::new()) {
        Err(e) => assert_eq!(e, MerkleError::EmptyInput),
        Ok(_) => panic!("a tree over nothing"),
    }
}

#[test]
fn single_leaf_is_its_own_root() {
    let tree = build(&["apple"]);
    assert_eq!(tree.levels, vec![vec![hash("apple")]]);
    assert_eq!(tree.leaves, vec![hash("apple")]);
    assert_eq!(tree.root(), hash("apple"));
    assert_eq!(
        tree.root(),
        "3a7bd3e2360a3d29eea436fcfb7e44c735d117c42d1c1835420b6b9942dd4f1b"
    );
}

#[test]
fn single_leaf_has_empty_proof() {
    let tree = build(&["apple"]);
    assert_eq!(tree.generate_proof(0), Ok(Vec::new()));
    assert!(MerkleTree::verify_proof("apple", Vec::new(), &tree.root()));
}

#[test]
fn single_empty_item_is_a_valid_tree() {
    let tree = build(&[""]);
    assert_eq!(
        tree.root(),
        "e3b0c44298fc1c149afbf4c8996fb92427ae41e4649b934ca495991b7852b855"
    );
}

#[test]
fn root_is_the_same_on_every_build() {
    let words = ["apple", "banana", "cherry", "date", "elder"];
    let first = build(&words);
    let second = build(&words);
    assert_eq!(first.root(), second.root());
    assert_eq!(first.levels, second.levels);
    assert_eq!(first.root(), first.root());
}

#[test]
fn four_items_scenario() {
    let tree = build(&["apple", "banana", "cherry", "date"]);
    let leaves = vec![hash("apple"), hash("banana"), hash("cherry"), hash("date")];
    let level1 = vec![
        hash_pair(&leaves[0], &leaves[1]),
        hash_pair(&leaves[2], &leaves[3]),
    ];
    let root = hash_pair(&level1[0], &level1[1]);
    assert_eq!(tree.leaves, leaves);
    assert_eq!(tree.levels, vec![leaves, level1.clone(), vec![root.clone()]]);
    assert_eq!(tree.root(), root);
    assert_eq!(
        root,
        "553c18f24d704b662bf49cede71758a1e7cb1dbee8948185bdc895843db0f5ca"
    );

    let proof = tree.generate_proof(2);
    let expected = vec![(hash("date"), false), (level1[0].clone(), true)];
    assert_eq!(proof, Ok(expected.clone()));
    assert!(MerkleTree::verify_proof("cherry", expected, &root));

    let both_left = vec![(hash("date"), false), (level1[0].clone(), false)];
    assert!(!MerkleTree::verify_proof("cherry", both_left, &root));
}

#[test]
fn four_items_proof_of_a_right_child() {
    let tree = build(&["apple", "banana", "cherry", "date"]);
    let proof = tree.generate_proof(3);
    let expected = vec![
        (hash("cherry"), true),
        (
            "004e48bbd922653f4cb0b656f13dbaaf72974acea5d6d836ba240ddcc780a994".to_string(),
            true,
        ),
    ];
    assert_eq!(proof, Ok(expected));
}

#[test]
fn odd_level_promotes_its_tail_unhashed() {
    let tree = build(&["a", "b", "c"]);
    assert_eq!(tree.levels.len(), 3);
    assert_eq!(tree.levels[1].len(), 2);
    assert_eq!(tree.levels[1][1], hash("c"));
    assert_eq!(tree.levels[1][0], hash_pair(&hash("a"), &hash("b")));
    assert_eq!(
        tree.root(),
        "d71dc32fa2cd95be60b32dbb3e63009fa8064407ee19f457c92a09a5ff841a8a"
    );
}

#[test]
fn lone_tail_skips_levels_in_its_proof() {
    let tree = build(&["a", "b", "c", "d", "e"]);
    assert_eq!(tree.levels.len(), 4);
    assert_eq!(tree.levels[1][2], hash("e"));
    assert_eq!(tree.levels[2][1], hash("e"));
    assert_eq!(
        tree.root(),
        "dea979f026a014fcb2300d6300e73ae1ccfb0dd238835d33895286d610eb7c4f"
    );
    let proof = tree.generate_proof(4);
    assert_eq!(
        proof,
        Ok(vec![(
            "58c89d709329eb37285837b042ab6ff72c7c8f74de0446b091b6a0131c102cfd".to_string(),
            true
        )])
    );
    assert!(MerkleTree::verify_proof("e", proof.unwrap(), &tree.root()));
}

#[test]
fn levels_halve_rounding_up() {
    let words = ["a", "b", "c", "d", "e", "f", "g", "h", "i", "j", "k"];
    let tree = build(&words);
    let lengths: Vec<usize> = tree.levels.iter().map(|l| l.len()).collect();
    assert_eq!(lengths, vec![11, 6, 3, 2, 1]);
}

#[test]
fn duplicate_items_are_accepted() {
    let tree = build(&["x", "x"]);
    assert_eq!(tree.root(), hash_pair(&hash("x"), &hash("x")));
    assert_eq!(tree.generate_proof(0), Ok(vec![(hash("x"), false)]));
    assert_eq!(tree.generate_proof(1), Ok(vec![(hash("x"), true)]));
}

#[test]
fn index_at_leaf_count_is_out_of_range() {
    for n in 1..6 {
        let words: Vec<String> = (0..n).map(|i| format!("item {}", i)).collect();
        let tree = MerkleTree::new(words).unwrap();
        assert_eq!(tree.generate_proof(n), Err(MerkleError::IndexOutOfRange));
        assert!(tree.generate_proof(n - 1).is_ok());
    }
}

#[test]
fn index_far_beyond_is_out_of_range() {
    let tree = build(&["apple", "banana", "cherry"]);
    assert_eq!(tree.generate_proof(100), Err(MerkleError::IndexOutOfRange));
    assert_eq!(
        tree.generate_proof(usize::MAX),
        Err(MerkleError::IndexOutOfRange)
    );
}

#[test]
fn tree_without_levels_has_no_leaf_to_prove() {
    let tree = MerkleTree {
        leaves: Vec::new(),
        levels: Vec::new(),
    };
    assert_eq!(tree.generate_proof(0), Err(MerkleError::IndexOutOfRange));
}

#[test]
fn every_generated_proof_verifies() {
    for n in 1..18 {
        let words: Vec<String> = (0..n).map(|i| format!("item {}", i)).collect();
        let tree = MerkleTree::new(words.clone()).unwrap();
        let root = tree.root();
        for (i, word) in words.iter().enumerate() {
            let proof = tree.generate_proof(i).unwrap();
            assert!(MerkleTree::verify_proof(word, proof, &root));
        }
    }
}

#[test]
fn proof_of_another_leaf_does_not_verify() {
    let tree = build(&["apple", "banana", "cherry", "date"]);
    let proof = tree.generate_proof(2).unwrap();
    assert!(!MerkleTree::verify_proof("banana", proof, &tree.root()));
}

#[test]
fn changed_leaf_does_not_verify() {
    let tree = build(&["apple", "banana", "cherry", "date"]);
    let proof = tree.generate_proof(2).unwrap();
    assert!(!MerkleTree::verify_proof("cherrx", proof.clone(), &tree.root()));
    assert!(!MerkleTree::verify_proof("Cherry", proof.clone(), &tree.root()));
    assert!(!MerkleTree::verify_proof("", proof, &tree.root()));
}

#[test]
fn changed_sibling_does_not_verify() {
    let tree = build(&["apple", "banana", "cherry", "date"]);
    let root = tree.root();
    let proof = tree.generate_proof(2).unwrap();
    for step in 0..proof.len() {
        let mut forged = proof.clone();
        let last = forged[step].0.pop().unwrap();
        forged[step].0.push(if last == '0' { '1' } else { '0' });
        assert!(!MerkleTree::verify_proof("cherry", forged, &root));
    }
}

#[test]
fn flipped_side_does_not_verify() {
    let tree = build(&["apple", "banana", "cherry", "date"]);
    let root = tree.root();
    let proof = tree.generate_proof(2).unwrap();
    for step in 0..proof.len() {
        let mut forged = proof.clone();
        forged[step].1 = !forged[step].1;
        assert!(!MerkleTree::verify_proof("cherry", forged, &root));
    }
}

#[test]
fn changed_root_does_not_verify() {
    let tree = build(&["apple", "banana", "cherry", "date"]);
    let proof = tree.generate_proof(2).unwrap();
    let mut root = tree.root();
    let last = root.pop().unwrap();
    root.push(if last == '0' { '1' } else { '0' });
    assert!(!MerkleTree::verify_proof("cherry", proof.clone(), &root));
    assert!(!MerkleTree::verify_proof("cherry", proof.clone(), ""));
    assert!(!MerkleTree::verify_proof(
        "cherry",
        proof,
        &tree.root().to_uppercase()
    ));
}

#[test]
fn truncated_or_extended_proof_does_not_verify() {
    let tree = build(&["apple", "banana", "cherry", "date"]);
    let root = tree.root();
    let proof = tree.generate_proof(2).unwrap();
    let mut short = proof.clone();
    short.pop();
    assert!(!MerkleTree::verify_proof("cherry", short, &root));
    let mut long = proof.clone();
    long.push((hash("extra"), false));
    assert!(!MerkleTree::verify_proof("cherry", long, &root));
    assert!(!MerkleTree::verify_proof("cherry", Vec::new(), &root));
}

#[test]
fn empty_proof_verifies_against_the_leaf_digest_only() {
    assert!(MerkleTree::verify_proof("apple", Vec::new(), &hash("apple")));
    assert!(!MerkleTree::verify_proof("apple", Vec::new(), &hash("banana")));
}

#[test]
fn verify_places_the_sibling_by_the_flag() {
    let leaf = hash("left");
    let other = hash("right");
    let as_left = hash_pair(&leaf, &other);
    let as_right = hash_pair(&other, &leaf);
    assert!(MerkleTree::verify_proof("left", vec![(other.clone(), false)], &as_left));
    assert!(MerkleTree::verify_proof("left", vec![(other.clone(), true)], &as_right));
    assert!(!MerkleTree::verify_proof("left", vec![(other.clone(), true)], &as_left));
    assert!(!MerkleTree::verify_proof("left", vec![(other, false)], &as_right));
}

#[test]
fn tree_can_be_cloned() {
    let tree = build(&["apple", "banana", "cherry"]);
    let copy = tree.clone();
    assert_eq!(copy.levels, tree.levels);
    assert_eq!(copy.leaves, tree.leaves);
    assert_eq!(copy.root(), tree.root());
}
