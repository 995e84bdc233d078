use blake2::Digest;
use trivial_tree::cursor::Cursor;
use trivial_tree::node::Node;

fn reference_digest(stream: &[u8]) -> Vec<u8> {
    let mut h = blake2::Blake2b512::new();
    h.update(stream);
    h.finalize().to_vec()
}

fn padded(text: &str) -> Vec<u8> {
    let mut w = text.as_bytes().to_vec();
    w.resize(32, 0);
    w
}

#[test]
fn hash_is_deterministic() {
    let tree = Node::Block {
        number: 99,
        contracts: vec![Node::Contract {
            address: vec![b'Z'; 20],
            storage: vec![Node::Variable { name: String::from("v"), value: padded("w") }],
        }],
    };
    let first = tree.hash();
    let second = tree.hash();
    assert_eq!(first, second);
    assert_eq!(first.len(), 64);
}

#[test]
fn concrete_scenario_matches_reference_digest() {
    // A block numbered 125 with one contract at an all-'A' address holding one
    // variable named "x" whose value is "y" padded to 32 bytes.
    let tree = Node::Block {
        number: 125,
        contracts: vec![Node::Contract {
            address: vec![b'A'; 20],
            storage: vec![Node::Variable { name: String::from("x"), value: padded("y") }],
        }],
    };

    // Encode, decode, and confirm structural equality with the original.
    let mut bytes: Vec<u8> = Vec::new();
    tree.serialize(&mut bytes);
    let mut c = Cursor::new(bytes);
    let back = Node::parse(&mut c).unwrap();
    assert_eq!(back, tree);

    // The traversal feeds: the number big-endian, the raw address, then the
    // variable's name and value bytes concatenated.
    let mut stream: Vec<u8> = Vec::new();
    stream.extend_from_slice(&125u64.to_be_bytes());
    stream.extend_from_slice(&[b'A'; 20]);
    stream.push(b'x');
    stream.extend_from_slice(&padded("y"));
    assert_eq!(tree.hash(), reference_digest(&stream));
    assert_eq!(back.hash(), reference_digest(&stream));
}

#[test]
fn swapping_contracts_changes_digest() {
    let a = || Node::Contract { address: vec![b'A'; 20], storage: vec![] };
    let b = || Node::Contract { address: vec![b'B'; 20], storage: vec![] };
    let left = Node::Block { number: 5, contracts: vec![a(), b()] };
    let right = Node::Block { number: 5, contracts: vec![b(), a()] };
    assert_ne!(left.hash(), right.hash());
}

#[test]
fn swapping_entries_changes_digest() {
    let entry = |k: u8, name: &str| Node::Entry {
        key: {
            let mut w = vec![0u8; 32];
            w[0] = k;
            w
        },
        entry: Box::new(Node::Variable { name: String::from(name), value: padded("v") }),
    };
    let mapping = |first: Node, second: Node| Node::Block {
        number: 1,
        contracts: vec![Node::Contract {
            address: vec![b'C'; 20],
            storage: vec![Node::Mapping {
                name: String::from("m"),
                entries: vec![first, second],
            }],
        }],
    };
    let left = mapping(entry(1, "p"), entry(2, "q"));
    let right = mapping(entry(2, "q"), entry(1, "p"));
    assert_ne!(left.hash(), right.hash());
}

#[test]
fn empty_containers_hash_header_fields_only() {
    let empty_block = Node::Block { number: 125, contracts: vec![] };
    assert_eq!(empty_block.hash(), reference_digest(&125u64.to_be_bytes()));

    let empty_mapping = Node::Mapping { name: String::from("m"), entries: vec![] };
    assert_eq!(empty_mapping.hash(), reference_digest(b"m"));
}

#[test]
fn struct_slot_still_hashes() {
    // Hashing is defined for struct slots (name, then fields), even though
    // the codec rejects them.
    let tree = Node::Struct {
        name: String::from("s"),
        fields: vec![Node::Variable { name: String::from("f"), value: padded("g") }],
    };
    let mut stream: Vec<u8> = Vec::new();
    stream.push(b's');
    stream.push(b'f');
    stream.extend_from_slice(&padded("g"));
    assert_eq!(tree.hash(), reference_digest(&stream));
}
