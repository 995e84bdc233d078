use trivial_tree::node::Node;

fn padded(text: &str) -> Vec<u8> {
    let mut w = text.as_bytes().to_vec();
    w.resize(32, b'.');
    w
}

#[test]
fn pretty_renders_indented_dump() {
    let tree = Node::Block {
        number: 125,
        contracts: vec![Node::Contract {
            address: vec![b'A'; 20],
            storage: vec![
                Node::Variable { name: String::from("x"), value: padded("y") },
                Node::Mapping {
                    name: String::from("m"),
                    entries: vec![Node::Entry {
                        key: padded("k"),
                        entry: Box::new(Node::Variable {
                            name: String::from("v"),
                            value: padded("w"),
                        }),
                    }],
                },
            ],
        }],
    };
    let text = tree.pretty();
    let expected = format!(
        "Block #125\n  Contract@{}\n    x -> {}\n    m :=\n      {} := \n       v -> {}\n",
        "A".repeat(20),
        String::from_utf8(padded("y")).unwrap(),
        String::from_utf8(padded("k")).unwrap(),
        String::from_utf8(padded("w")).unwrap(),
    );
    assert_eq!(text, expected);
}

#[test]
fn pretty_degrades_gracefully_on_binary_fields() {
    // A value that is not valid UTF-8 renders as one question mark per byte
    // instead of aborting the dump.
    let tree = Node::Variable { name: String::from("raw"), value: vec![0xff; 32] };
    let text = tree.pretty();
    assert_eq!(text, format!("raw -> {}\n", "?".repeat(32)));
}

#[test]
fn pretty_handles_empty_block() {
    let tree = Node::Block { number: 0, contracts: vec![] };
    assert_eq!(tree.pretty(), "Block #0\n");
}
