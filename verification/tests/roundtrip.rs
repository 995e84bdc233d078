use trivial_tree::cursor::Cursor;
use trivial_tree::node::Node;

fn addr(c: u8) -> Vec<u8> {
    vec![c; 20]
}

fn word(first: u8) -> Vec<u8> {
    let mut w = vec![0u8; 32];
    w[0] = first;
    w
}

fn sample_tree() -> Node {
    Node::Block {
        number: 7,
        contracts: vec![
            Node::Contract {
                address: addr(b'A'),
                storage: vec![
                    Node::Variable { name: String::from("balance"), value: word(b'x') },
                    Node::Mapping {
                        name: String::from("owners"),
                        entries: vec![
                            Node::Entry {
                                key: word(1),
                                entry: Box::new(Node::Variable {
                                    name: String::from("alice"),
                                    value: word(b'a'),
                                }),
                            },
                            Node::Entry {
                                key: word(2),
                                entry: Box::new(Node::Mapping {
                                    name: String::from("nested"),
                                    entries: vec![],
                                }),
                            },
                        ],
                    },
                ],
            },
            Node::Contract { address: addr(b'B'), storage: vec![] },
        ],
    }
}

#[test]
fn round_trip_reproduces_tree() {
    let tree = sample_tree();
    let mut bytes: Vec<u8> = Vec::new();
    tree.serialize(&mut bytes);
    let mut c = Cursor::new(bytes);
    let back = Node::parse(&mut c).expect("decoding an encoded tree must succeed");
    assert_eq!(back, tree);
}

#[test]
fn round_trip_preserves_hash() {
    let tree = sample_tree();
    let mut bytes: Vec<u8> = Vec::new();
    tree.serialize(&mut bytes);
    let mut c = Cursor::new(bytes);
    let back = Node::parse(&mut c).unwrap();
    assert_eq!(back.hash(), tree.hash());
}

#[test]
fn round_trip_empty_block() {
    let tree = Node::Block { number: 0, contracts: vec![] };
    let mut bytes: Vec<u8> = Vec::new();
    tree.serialize(&mut bytes);
    assert_eq!(bytes.len(), 16);
    let mut c = Cursor::new(bytes);
    let back = Node::parse(&mut c).unwrap();
    assert_eq!(back, tree);
}

#[test]
fn serialized_bytes_match_wire_format() {
    let tree = Node::Block {
        number: 258,
        contracts: vec![Node::Contract {
            address: addr(b'C'),
            storage: vec![Node::Variable { name: String::from("x"), value: word(b'y') }],
        }],
    };
    let mut bytes: Vec<u8> = Vec::new();
    tree.serialize(&mut bytes);

    let mut expected: Vec<u8> = Vec::new();
    expected.extend_from_slice(&258u64.to_le_bytes());
    expected.extend_from_slice(&1u64.to_le_bytes());
    expected.extend_from_slice(&[b'C'; 20]);
    expected.extend_from_slice(&1u64.to_le_bytes());
    expected.push(1); // variable tag
    expected.extend_from_slice(&1u64.to_le_bytes());
    expected.push(b'x');
    let mut w = vec![0u8; 32];
    w[0] = b'y';
    expected.extend_from_slice(&w);
    assert_eq!(bytes, expected);
}

#[test]
fn reserializing_a_parsed_tree_reproduces_the_bytes() {
    let tree = sample_tree();
    let mut bytes: Vec<u8> = Vec::new();
    tree.serialize(&mut bytes);
    let mut c = Cursor::new(bytes.clone());
    let back = Node::parse(&mut c).unwrap();
    assert!(back.is_struct_free());
    let mut again: Vec<u8> = Vec::new();
    back.serialize(&mut again);
    assert_eq!(again, bytes);
}

#[test]
fn is_struct_free_spots_struct_slots() {
    let clean = sample_tree();
    assert!(clean.is_struct_free());
    let tainted = Node::Block {
        number: 1,
        contracts: vec![Node::Contract {
            address: addr(b'A'),
            storage: vec![Node::Struct { name: String::from("s"), fields: vec![] }],
        }],
    };
    assert!(!tainted.is_struct_free());
}
