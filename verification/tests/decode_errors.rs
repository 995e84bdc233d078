use trivial_tree::cursor::Cursor;
use trivial_tree::errors::DecodeError;
use trivial_tree::node::Node;

fn encoded_sample() -> Vec<u8> {
    let tree = Node::Block {
        number: 3,
        contracts: vec![Node::Contract {
            address: vec![b'A'; 20],
            storage: vec![Node::Variable {
                name: String::from("name"),
                value: vec![7u8; 32],
            }],
        }],
    };
    let mut bytes: Vec<u8> = Vec::new();
    tree.serialize(&mut bytes);
    bytes
}

#[test]
fn truncated_buffer_fails_with_out_of_bounds() {
    let full = encoded_sample();
    // Truncating anywhere strictly inside the encoding must fail with an
    // out-of-bounds error: never a panic, never a partial tree.
    for cut in 0..full.len() {
        let mut c = Cursor::new(full[..cut].to_vec());
        match Node::parse(&mut c) {
            Err(DecodeError::OutOfBounds { .. }) => {},
            other => panic!("cut at {} gave {:?}", cut, other),
        }
    }
}

#[test]
fn truncation_mid_field_reports_read_position() {
    // Cut inside the block number itself: the failed 8-byte read starts at 0.
    let full = encoded_sample();
    let mut c = Cursor::new(full[..4].to_vec());
    assert_eq!(
        Node::parse(&mut c),
        Err(DecodeError::OutOfBounds { offset: 0, needed: 8 })
    );
}

#[test]
fn unknown_slot_tag_reports_offending_byte() {
    let mut bytes: Vec<u8> = Vec::new();
    bytes.extend_from_slice(&1u64.to_le_bytes()); // block number
    bytes.extend_from_slice(&1u64.to_le_bytes()); // one contract
    bytes.extend_from_slice(&[b'A'; 20]); // address
    bytes.extend_from_slice(&1u64.to_le_bytes()); // one slot
    bytes.push(7); // tag outside {1, 2, 3}
    let tag_offset = bytes.len() - 1;
    let mut c = Cursor::new(bytes);
    assert_eq!(
        Node::parse(&mut c),
        Err(DecodeError::InvalidEncoding { offset: tag_offset, found: Some(7) })
    );
}

#[test]
fn struct_slot_is_rejected_as_unsupported() {
    let mut bytes: Vec<u8> = Vec::new();
    bytes.extend_from_slice(&1u64.to_le_bytes());
    bytes.extend_from_slice(&1u64.to_le_bytes());
    bytes.extend_from_slice(&[b'A'; 20]);
    bytes.extend_from_slice(&1u64.to_le_bytes());
    bytes.push(2); // struct tag: no defined field encoding
    let tag_offset = bytes.len() - 1;
    let mut c = Cursor::new(bytes);
    assert_eq!(
        Node::parse(&mut c),
        Err(DecodeError::UnsupportedNode { offset: tag_offset })
    );
}

#[test]
fn invalid_utf8_name_is_rejected() {
    let mut bytes: Vec<u8> = Vec::new();
    bytes.extend_from_slice(&1u64.to_le_bytes());
    bytes.extend_from_slice(&1u64.to_le_bytes());
    bytes.extend_from_slice(&[b'A'; 20]);
    bytes.extend_from_slice(&1u64.to_le_bytes());
    bytes.push(1); // variable tag
    bytes.extend_from_slice(&2u64.to_le_bytes()); // name of two bytes
    let name_offset = bytes.len();
    bytes.extend_from_slice(&[0xff, 0xfe]); // not valid UTF-8
    bytes.extend_from_slice(&[0u8; 32]);
    let mut c = Cursor::new(bytes);
    assert_eq!(
        Node::parse(&mut c),
        Err(DecodeError::InvalidEncoding { offset: name_offset, found: None })
    );
}

#[test]
fn huge_declared_count_fails_fast() {
    // A corrupt count near u64::MAX must fail via the bounds check, not by
    // attempting an unbounded allocation.
    let mut bytes: Vec<u8> = Vec::new();
    bytes.extend_from_slice(&1u64.to_le_bytes());
    bytes.extend_from_slice(&1u64.to_le_bytes());
    bytes.extend_from_slice(&[b'A'; 20]);
    bytes.extend_from_slice(&1u64.to_le_bytes());
    bytes.push(1);
    bytes.extend_from_slice(&u64::MAX.to_le_bytes()); // absurd name length
    let name_offset = bytes.len();
    let mut c = Cursor::new(bytes);
    assert_eq!(
        Node::parse(&mut c),
        Err(DecodeError::OutOfBounds { offset: name_offset, needed: u64::MAX })
    );
}

#[test]
fn trailing_bytes_are_left_unread() {
    let mut bytes = encoded_sample();
    let len = bytes.len();
    bytes.extend_from_slice(&[9u8, 9, 9]);
    let mut c = Cursor::new(bytes);
    assert!(Node::parse(&mut c).is_ok());
    assert_eq!(c.position(), len);
}

#[test]
fn cursor_reads_little_endian_and_checks_bounds() {
    let mut c = Cursor::new(vec![1, 0, 0, 0, 0, 0, 0, 0, 0xaa]);
    assert_eq!(c.read_u64_le(), Ok(1));
    assert_eq!(c.read_u8(), Ok(0xaa));
    assert_eq!(c.read_u8(), Err(DecodeError::OutOfBounds { offset: 9, needed: 1 }));
    assert_eq!(c.read_u64_le(), Err(DecodeError::OutOfBounds { offset: 9, needed: 8 }));
    assert_eq!(
        c.read_exact(4),
        Err(DecodeError::OutOfBounds { offset: 9, needed: 4 })
    );
}

#[test]
fn cursor_read_exact_returns_exact_bytes() {
    let mut c = Cursor::new(vec![10, 20, 30, 40]);
    assert_eq!(c.read_exact(3), Ok(vec![10, 20, 30]));
    assert_eq!(c.position(), 3);
}
