//! The wire grammar: what a tree looks like as a flat byte sequence, in both
//! directions.
//!
//! All integers (the block number, child counts, name lengths) are 8-byte
//! little-endian. The block and contract levels carry no tag byte: their
//! layout is positional. Only slot nodes inside a contract carry a one-byte
//! discriminant (1 = variable, 2 = struct, 3 = mapping), because a contract's
//! storage can mix slot kinds. A struct slot has no defined field encoding
//! and is rejected on decode rather than mis-decoded.
use crate::cursor::{spec_read_exact, spec_read_u64_le, spec_read_u8};
use crate::errors::DecodeError;
use crate::node::NodeView;
use vstd::bytes::spec_u64_to_le_bytes;
use vstd::prelude::*;
use vstd::utf8::{decode_utf8, encode_utf8, valid_utf8};

verus! {

/// The byte encoding of one node. The block, contract and entry levels are
/// positional; slots start with their tag byte. A struct slot encodes as its
/// bare tag: nothing after the tag is defined for it, and the encoder refuses
/// whole trees that contain one.
pub open spec fn enc(v: NodeView) -> Seq<u8>
    decreases v, 1int,
{
    match v {
        NodeView::Block { number, contracts } => spec_u64_to_le_bytes(number)
            + spec_u64_to_le_bytes(contracts.len() as u64) + enc_seq(contracts),
        NodeView::Contract { address, storage } => address + spec_u64_to_le_bytes(
            storage.len() as u64,
        ) + enc_seq(storage),
        NodeView::Variable { name, value } => seq![1u8] + spec_u64_to_le_bytes(
            encode_utf8(name).len() as u64,
        ) + encode_utf8(name) + value,
        NodeView::Struct { name: _, fields: _ } => seq![2u8],
        NodeView::Mapping { name, entries } => seq![3u8] + spec_u64_to_le_bytes(
            encode_utf8(name).len() as u64,
        ) + encode_utf8(name) + spec_u64_to_le_bytes(entries.len() as u64) + enc_seq(entries),
        NodeView::Entry { key, entry } => key + enc(*entry),
    }
}

/// The concatenated encodings of a sequence of nodes, in order.
pub open spec fn enc_seq(s: Seq<NodeView>) -> Seq<u8>
    decreases s, 0int,
{
    if s.len() == 0 {
        Seq::empty()
    } else {
        enc(s[0]) + enc_seq(s.subrange(1, s.len() as int))
    }
}

/// Decoding a name: an 8-byte little-endian length, then that many bytes,
/// which must be valid UTF-8.
pub open spec fn dec_name(b: Seq<u8>, p: int) -> Result<(Seq<char>, int), DecodeError> {
    match spec_read_u64_le(b, p) {
        Ok((n, p1)) => match spec_read_exact(b, p1, n as int) {
            Ok((nb, p2)) => if valid_utf8(nb) {
                Ok((decode_utf8(nb), p2))
            } else {
                Err(DecodeError::InvalidEncoding { offset: p1 as usize, found: None })
            },
            Err(e) => Err(e),
        },
        Err(e) => Err(e),
    }
}

/// Decoding a block: number, contract count, then that many contracts.
pub open spec fn dec_block(b: Seq<u8>, p: int) -> Result<(NodeView, int), DecodeError> {
    match spec_read_u64_le(b, p) {
        Ok((number, p1)) => match spec_read_u64_le(b, p1) {
            Ok((cnt, p2)) => match dec_contracts(b, p2, cnt as int) {
                Ok((contracts, p3)) => Ok((NodeView::Block { number, contracts }, p3)),
                Err(e) => Err(e),
            },
            Err(e) => Err(e),
        },
        Err(e) => Err(e),
    }
}

/// Decoding `cnt` contracts in sequence.
pub open spec fn dec_contracts(b: Seq<u8>, p: int, cnt: int) -> Result<
    (Seq<NodeView>, int),
    DecodeError,
>
    decreases cnt,
{
    if cnt <= 0 {
        Ok((Seq::empty(), p))
    } else {
        match dec_contract(b, p) {
            Ok((c, p1)) => match dec_contracts(b, p1, cnt - 1) {
                Ok((rest, p2)) => Ok((seq![c] + rest, p2)),
                Err(e) => Err(e),
            },
            Err(e) => Err(e),
        }
    }
}

/// Decoding a contract: a 20-byte address, a slot count, then that many slots.
pub open spec fn dec_contract(b: Seq<u8>, p: int) -> Result<(NodeView, int), DecodeError> {
    match spec_read_exact(b, p, 20) {
        Ok((address, p1)) => match spec_read_u64_le(b, p1) {
            Ok((cnt, p2)) => match dec_slots(b, p2, cnt as int) {
                Ok((storage, p3)) => Ok((NodeView::Contract { address, storage }, p3)),
                Err(e) => Err(e),
            },
            Err(e) => Err(e),
        },
        Err(e) => Err(e),
    }
}

/// Decoding `cnt` slots in sequence.
pub open spec fn dec_slots(b: Seq<u8>, p: int, cnt: int) -> Result<
    (Seq<NodeView>, int),
    DecodeError,
>
    decreases cnt,
{
    if cnt <= 0 {
        Ok((Seq::empty(), p))
    } else {
        match dec_slot(b, p) {
            Ok((v, p1)) => match dec_slots(b, p1, cnt - 1) {
                Ok((rest, p2)) => Ok((seq![v] + rest, p2)),
                Err(e) => Err(e),
            },
            Err(e) => Err(e),
        }
    }
}

/// Decoding one slot: the tag byte decides the shape. A tag outside the known
/// set fails with the offending byte; a struct tag is rejected as unsupported.
pub open spec fn dec_slot(b: Seq<u8>, p: int) -> Result<(NodeView, int), DecodeError>
    decreases b.len() - p, 3int,
{
    match spec_read_u8(b, p) {
        Ok((tag, p1)) => if tag == 1 {
            dec_variable(b, p1)
        } else if tag == 2 {
            Err(DecodeError::UnsupportedNode { offset: p as usize })
        } else if tag == 3 {
            dec_mapping(b, p1)
        } else {
            Err(DecodeError::InvalidEncoding { offset: p as usize, found: Some(tag) })
        },
        Err(e) => Err(e),
    }
}

/// Decoding a variable slot body: a name, then a 32-byte value word.
pub open spec fn dec_variable(b: Seq<u8>, p: int) -> Result<(NodeView, int), DecodeError> {
    match dec_name(b, p) {
        Ok((name, p1)) => match spec_read_exact(b, p1, 32) {
            Ok((value, p2)) => Ok((NodeView::Variable { name, value }, p2)),
            Err(e) => Err(e),
        },
        Err(e) => Err(e),
    }
}

/// Decoding a mapping slot body: a name, an entry count, then that many
/// entries.
pub open spec fn dec_mapping(b: Seq<u8>, p: int) -> Result<(NodeView, int), DecodeError>
    decreases b.len() - p, 2int,
{
    match dec_name(b, p) {
        Ok((name, p1)) => match spec_read_u64_le(b, p1) {
            Ok((cnt, p2)) => match dec_entries(b, p2, cnt as int) {
                Ok((entries, p3)) => Ok((NodeView::Mapping { name, entries }, p3)),
                Err(e) => Err(e),
            },
            Err(e) => Err(e),
        },
        Err(e) => Err(e),
    }
}

/// Decoding `cnt` entries in sequence. A decoded entry always moves the
/// position forward and stays inside the buffer; the guard that restates this
/// only keeps the recursion visibly well-founded.
pub open spec fn dec_entries(b: Seq<u8>, p: int, cnt: int) -> Result<
    (Seq<NodeView>, int),
    DecodeError,
>
    decreases b.len() - p, cnt,
{
    if cnt <= 0 {
        Ok((Seq::empty(), p))
    } else {
        match dec_entry(b, p) {
            Ok((e, p1)) => if p < p1 <= b.len() {
                match dec_entries(b, p1, cnt - 1) {
                    Ok((rest, p2)) => Ok((seq![e] + rest, p2)),
                    Err(er) => Err(er),
                }
            } else {
                Err(DecodeError::OutOfBounds { offset: p as usize, needed: 0 })
            },
            Err(e) => Err(e),
        }
    }
}

/// Decoding one entry: a 32-byte key word, then the wrapped slot.
pub open spec fn dec_entry(b: Seq<u8>, p: int) -> Result<(NodeView, int), DecodeError>
    decreases b.len() - p, 0int,
{
    match spec_read_exact(b, p, 32) {
        Ok((key, p1)) => match dec_slot(b, p1) {
            Ok((v, p2)) => Ok((NodeView::Entry { key, entry: Box::new(v) }, p2)),
            Err(e) => Err(e),
        },
        Err(e) => Err(e),
    }
}

} // verus!
