use eth_trie::EthTrie;
use eth_trie::MemoryDB;
use eth_trie::Nibbles;
use eth_trie::TrieError;
use eth_trie::decode_node;
use eth_trie::node::BranchNode;
use eth_trie::node::Node;
use eth_trie::node::empty_children;
use eth_trie::verify;

fn hex_to_bytes(s: &str) -> Vec<u8> {
    let b = s.as_bytes();
    let mut out = Vec::new();
    let mut i = 0;
    while i + 1 < b.len() {
        let hi = (b[i] as char).to_digit(16).unwrap() as u8;
        let lo = (b[i + 1] as char).to_digit(16).unwrap() as u8;
        out.push(hi * 16 + lo);
        i += 2;
    }
    out
}

fn new_trie() -> EthTrie {
    EthTrie::new(MemoryDB::new())
}

fn nibbles_of(data: &[u8]) -> Nibbles {
    Nibbles { data: data.to_vec() }
}

#[test]
fn compact_round_trip_odd_leaf() {
    let n = nibbles_of(&[1, 2, 3]);
    let enc = n.encode_compact(true);
    assert_eq!(enc, vec![0x31, 0x23]);
    let (back, is_leaf) = Nibbles::decode_compact(&enc).unwrap();
    assert_eq!(back.data, vec![1, 2, 3]);
    assert!(is_leaf);
}

#[test]
fn compact_round_trip_even_extension() {
    let n = nibbles_of(&[1, 2]);
    let enc = n.encode_compact(false);
    assert_eq!(enc, vec![0x00, 0x12]);
    let (back, is_leaf) = Nibbles::decode_compact(&enc).unwrap();
    assert_eq!(back.data, vec![1, 2]);
    assert!(!is_leaf);
}

#[test]
fn compact_round_trip_empty() {
    let n = nibbles_of(&[]);
    for flag in [false, true] {
        let enc = n.encode_compact(flag);
        let (back, is_leaf) = Nibbles::decode_compact(&enc).unwrap();
        assert_eq!(back.data, Vec::<u8>::new());
        assert_eq!(is_leaf, flag);
    }
}

#[test]
fn compact_decode_malformed() {
    assert_eq!(
        Nibbles::decode_compact(&[]).unwrap_err(),
        TrieError::InvalidData
    );
    // high bits of the header byte must be clear
    assert_eq!(
        Nibbles::decode_compact(&[0x75, 0x12]).unwrap_err(),
        TrieError::InvalidData
    );
    // even parity demands a zero padding nibble
    assert_eq!(
        Nibbles::decode_compact(&[0x05, 0x12]).unwrap_err(),
        TrieError::InvalidData
    );
}

#[test]
fn insert_get_consistency() {
    let mut trie = new_trie();
    trie.insert(b"key", b"value".to_vec()).unwrap();
    assert_eq!(trie.get(b"key").unwrap(), Some(b"value".to_vec()));
    assert_eq!(trie.get(b"missing").unwrap(), None);
    // the later value wins
    trie.insert(b"key", b"value2".to_vec()).unwrap();
    assert_eq!(trie.get(b"key").unwrap(), Some(b"value2".to_vec()));
}

#[test]
fn empty_key_is_a_valid_key() {
    let mut trie = new_trie();
    trie.insert(b"", b"root-value".to_vec()).unwrap();
    assert_eq!(trie.get(b"").unwrap(), Some(b"root-value".to_vec()));
}

#[test]
fn empty_trie_root_is_fixed_digest() {
    let mut trie = new_trie();
    let root = trie.root().unwrap();
    assert_eq!(
        root,
        hex_to_bytes("56e81f171bcc55a6ff8345e692c0f86e5b48e01b996cadc001622fb5e363b421")
    );
}

#[test]
fn delete_insert_inverse() {
    let mut trie = new_trie();
    trie.insert(b"k1", b"v1".to_vec()).unwrap();
    trie.insert(b"k2", b"v2".to_vec()).unwrap();
    let removed = trie.delete(b"k1").unwrap();
    assert!(removed);
    assert_eq!(trie.get(b"k1").unwrap(), None);
    assert_eq!(trie.get(b"k2").unwrap(), Some(b"v2".to_vec()));

    let mut only_k2 = new_trie();
    only_k2.insert(b"k2", b"v2".to_vec()).unwrap();
    assert_eq!(trie.root().unwrap(), only_k2.root().unwrap());
}

#[test]
fn delete_missing_key_is_noop() {
    let mut trie = new_trie();
    trie.insert(b"alpha", b"1".to_vec()).unwrap();
    let removed = trie.delete(b"beta").unwrap();
    assert!(!removed);
    assert_eq!(trie.get(b"alpha").unwrap(), Some(b"1".to_vec()));
}

#[test]
fn scenario_four_words() {
    let pairs: Vec<(&[u8], &[u8])> = vec![
        (b"do", b"verb"),
        (b"dog", b"puppy"),
        (b"doge", b"coin"),
        (b"horse", b"stallion"),
    ];
    let mut trie = new_trie();
    for i in 0..pairs.len() {
        trie.insert(pairs[i].0, pairs[i].1.to_vec()).unwrap();
        for j in 0..=i {
            assert_eq!(trie.get(pairs[j].0).unwrap(), Some(pairs[j].1.to_vec()));
        }
    }
    let root = trie.root().unwrap();

    let mut reversed = new_trie();
    for (k, v) in pairs.iter().rev() {
        reversed.insert(k, v.to_vec()).unwrap();
    }
    assert_eq!(reversed.root().unwrap(), root);

    // the protocol conformance vector for these four pairs
    assert_eq!(
        root,
        hex_to_bytes("5991bb8c6514148a29db676a14ac506cd2cd5775ace63c30a4fe457715e9ac84")
    );
}

#[test]
fn commit_determinism_over_permutations() {
    let pairs: Vec<(&[u8], &[u8])> = vec![
        (b"abc", b"one"),
        (b"abd", b"two"),
        (b"xyz", b"three"),
        (b"a", b"four"),
    ];
    let orders: Vec<[usize; 4]> = vec![
        [0, 1, 2, 3],
        [3, 2, 1, 0],
        [2, 0, 3, 1],
        [1, 3, 0, 2],
    ];
    let mut roots = Vec::new();
    for order in &orders {
        let mut trie = new_trie();
        for &i in order.iter() {
            trie.insert(pairs[i].0, pairs[i].1.to_vec()).unwrap();
        }
        roots.push(trie.root().unwrap());
    }
    for r in &roots {
        assert_eq!(r, &roots[0]);
    }
}

#[test]
fn proof_soundness_present_and_absent() {
    let mut trie = new_trie();
    let pairs: Vec<(&[u8], &[u8])> = vec![
        (b"do", b"verb"),
        (b"dog", b"puppy"),
        (b"doge", b"coin"),
        (b"horse", b"stallion"),
    ];
    for (k, v) in &pairs {
        trie.insert(k, v.to_vec()).unwrap();
    }
    let root = trie.root().unwrap();
    for (k, v) in &pairs {
        let proof = trie.prove(k).unwrap();
        assert_eq!(verify(&root, k, &proof).unwrap(), Some(v.to_vec()));
    }
    for absent in [&b"cat"[..], &b"dogs"[..], &b""[..]] {
        let proof = trie.prove(absent).unwrap();
        assert_eq!(verify(&root, absent, &proof).unwrap(), None);
    }
}

#[test]
fn proof_tamper_detection() {
    let mut trie = new_trie();
    // values long enough that every node travels by digest
    for (k, v) in [
        (&b"do"[..], [1u8; 40].to_vec()),
        (&b"dog"[..], [2u8; 40].to_vec()),
        (&b"doge"[..], [3u8; 40].to_vec()),
        (&b"horse"[..], [4u8; 40].to_vec()),
    ] {
        trie.insert(k, v).unwrap();
    }
    let root = trie.root().unwrap();
    let proof = trie.prove(b"dog").unwrap();
    assert!(proof.len() >= 2);
    assert_eq!(verify(&root, b"dog", &proof).unwrap(), Some([2u8; 40].to_vec()));

    // flipping any byte of any entry must be rejected
    for e in 0..proof.len() {
        for pos in 0..proof[e].len() {
            let mut bad = proof.clone();
            bad[e][pos] ^= 0x01;
            assert_eq!(
                verify(&root, b"dog", &bad).unwrap_err(),
                TrieError::InvalidProof
            );
        }
    }

    // reordering entries must be rejected
    let mut swapped = proof.clone();
    swapped.swap(0, 1);
    assert_eq!(
        verify(&root, b"dog", &swapped).unwrap_err(),
        TrieError::InvalidProof
    );

    // a stray extra entry must be rejected
    let mut padded = proof.clone();
    padded.push(vec![0x80]);
    assert_eq!(
        verify(&root, b"dog", &padded).unwrap_err(),
        TrieError::InvalidProof
    );

    // a truncated proof must be rejected
    let mut truncated = proof.clone();
    truncated.pop();
    assert_eq!(
        verify(&root, b"dog", &truncated).unwrap_err(),
        TrieError::InvalidProof
    );

    // an empty proof proves nothing
    assert_eq!(
        verify(&root, b"dog", &Vec::new()).unwrap_err(),
        TrieError::InvalidProof
    );

    // a proof for one root does not verify against another
    let other_root = hex_to_bytes("56e81f171bcc55a6ff8345e692c0f86e5b48e01b996cadc001622fb5e363b421");
    assert_eq!(
        verify(&other_root, b"dog", &proof).unwrap_err(),
        TrieError::InvalidProof
    );
}

#[test]
fn persisted_trie_reopens_from_root() {
    let mut trie = new_trie();
    for (k, v) in [
        (&b"do"[..], [1u8; 40].to_vec()),
        (&b"dog"[..], [2u8; 40].to_vec()),
        (&b"horse"[..], [4u8; 40].to_vec()),
    ] {
        trie.insert(k, v).unwrap();
    }
    let root = trie.root().unwrap();
    let db = trie.db;
    let reopened = EthTrie::from_root(db, &root).unwrap();
    assert_eq!(reopened.get(b"dog").unwrap(), Some([2u8; 40].to_vec()));
    assert_eq!(reopened.get(b"cat").unwrap(), None);
}

#[test]
fn missing_root_is_reported_with_its_digest() {
    let digest = vec![0xabu8; 32];
    match EthTrie::from_root(MemoryDB::new(), &digest) {
        Err(TrieError::MissingTrieNode { node_hash, traversed, root_hash, .. }) => {
            assert_eq!(node_hash, digest);
            assert_eq!(traversed, Some(Vec::new()));
            assert_eq!(root_hash, Some(digest));
        },
        other => panic!("expected a missing-node error, got {:?}", other),
    }
}

#[test]
fn missing_inner_node_reports_digest_and_path() {
    let mut trie = new_trie();
    for (k, v) in [
        (&b"do"[..], [1u8; 40].to_vec()),
        (&b"dog"[..], [2u8; 40].to_vec()),
        (&b"horse"[..], [4u8; 40].to_vec()),
    ] {
        trie.insert(k, v).unwrap();
    }
    let root = trie.root().unwrap();
    // keep only the root's own entry: every child reference now dangles
    let kept: Vec<(Vec<u8>, Vec<u8>)> = trie
        .db
        .entries
        .iter()
        .filter(|(k, _)| k == &root)
        .cloned()
        .collect();
    let gutted = MemoryDB { entries: kept };
    match EthTrie::from_root(gutted, &root) {
        Err(TrieError::MissingTrieNode { node_hash, traversed, root_hash, .. }) => {
            assert_eq!(node_hash.len(), 32);
            assert_ne!(node_hash, root);
            let path = traversed.expect("the traversed path is reported");
            assert!(!path.is_empty());
            assert!(path.iter().all(|n| *n < 16));
            assert_eq!(root_hash, Some(root));
        },
        other => panic!("expected a missing-node error, got {:?}", other),
    }
}

#[test]
fn decode_rejects_garbage() {
    assert!(decode_node(&[]).is_err());
    assert!(decode_node(&[0xff, 0x00]).is_err());
    // a bare non-empty string is not a node
    assert!(decode_node(&[0x61]).is_err());
    // the canonical empty encoding is the empty node
    assert!(matches!(decode_node(&[0x80]).unwrap(), Node::Empty));
}

#[test]
fn node_constructors_and_branch_insert() {
    let children = empty_children();
    assert_eq!(children.len(), 16);
    let mut branch = BranchNode {
        children,
        value: None,
    };
    let leaf = Node::from_leaf(Nibbles::new(), b"v".to_vec());
    branch.insert(16, leaf);
    assert_eq!(branch.value, Some(b"v".to_vec()));
    let child = Node::from_leaf(Nibbles::new(), b"w".to_vec());
    branch.insert(3, child);
    assert!(matches!(branch.children[3], Node::Leaf(_)));
    assert!(matches!(Node::from_hash(vec![0u8; 32]), Node::Hash(_)));
    assert!(matches!(
        Node::from_extension(nibbles_of(&[1]), Node::Empty),
        Node::Extension(_)
    ));
    assert!(matches!(
        Node::from_branch(empty_children(), None),
        Node::Branch(_)
    ));
}

#[test]
fn memory_db_basics() {
    let mut db = MemoryDB::new();
    assert_eq!(db.get(b"a"), None);
    db.insert(b"a".to_vec(), b"1".to_vec());
    db.insert(b"b".to_vec(), b"2".to_vec());
    assert_eq!(db.get(b"a"), Some(b"1".to_vec()));
    // the later write shadows the earlier one
    db.insert(b"a".to_vec(), b"3".to_vec());
    assert_eq!(db.get(b"a"), Some(b"3".to_vec()));
    db.remove(b"a");
    assert_eq!(db.get(b"a"), None);
    assert_eq!(db.get(b"b"), Some(b"2".to_vec()));
}

#[test]
fn error_descriptions() {
    assert_eq!(
        TrieError::InvalidData.describe(),
        "trie error: invalid data"
    );
    assert_eq!(
        TrieError::InvalidProof.describe(),
        "trie error: invalid proof"
    );
    assert_eq!(TrieError::Decoder.describe(), "trie error: decoder failure");
}

#[test]
fn nibbles_utilities() {
    let n = Nibbles::from_bytes(b"\x12\xab");
    assert_eq!(n.data, vec![1, 2, 10, 11]);
    assert_eq!(n.len(), 4);
    assert_eq!(n.at(2), 10);
    assert_eq!(n.slice(1, 3).data, vec![2, 10]);
    let m = nibbles_of(&[1, 2, 9]);
    assert_eq!(n.common_prefix_len(&m), 2);
    assert_eq!(Nibbles::prepend(7, &m).data, vec![7, 1, 2, 9]);
    assert_eq!(n.concat(&m).data, vec![1, 2, 10, 11, 1, 2, 9]);
}

#[test]
fn empty_value_is_stored_like_any_other() {
    let mut trie = new_trie();
    trie.insert(b"k", Vec::new()).unwrap();
    assert_eq!(trie.get(b"k").unwrap(), Some(Vec::new()));
}
