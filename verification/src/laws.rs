//! The crate's stated laws: round trip, determinism, order sensitivity and
//! empty-container behaviour, each proved against the specs that the
//! executable functions' contracts use.
use crate::cursor::{spec_read_exact, spec_read_u64_le, spec_read_u8};
use crate::errors::DecodeError;
use crate::hashing::{blake2b512_of, hash_input, hash_input_seq, spec_u64_to_be_bytes};
use crate::node::{is_slot, struct_free, struct_free_seq, wf, NodeView};
use crate::wire::{
    dec_block, dec_contract, dec_contracts, dec_entries, dec_entry, dec_mapping, dec_name,
    dec_slot, dec_slots, enc, enc_seq,
};
use vstd::bytes::{lemma_auto_spec_u64_to_from_le_bytes, spec_u64_to_le_bytes};
use vstd::prelude::*;
use vstd::utf8::{encode_utf8, encode_utf8_decode_utf8, encode_utf8_valid_utf8};

verus! {

/// A slice of a matching slice: if `e` sits in `b` at position `p`, any piece
/// of `e` sits in `b` at the corresponding offsets.
proof fn lemma_slice_of_slice(b: Seq<u8>, p: int, e: Seq<u8>, i: int, j: int)
    requires
        0 <= p,
        p + e.len() <= b.len(),
        b.subrange(p, p + e.len()) == e,
        0 <= i <= j <= e.len(),
    ensures
        b.subrange(p + i, p + j) == e.subrange(i, j),
{
    assert forall|k: int| 0 <= k < j - i implies b.subrange(p + i, p + j)[k] == e.subrange(i, j)[k] by {
        assert(b.subrange(p, p + e.len())[i + k] == e[i + k]);
    }
    assert(b.subrange(p + i, p + j) =~= e.subrange(i, j));
}

/// Decoding the encoding of a well-formed, struct-free block from within any
/// buffer yields that block back and consumes exactly its encoding.
proof fn lemma_rt_block(b: Seq<u8>, p: int, v: NodeView)
    requires
        v is Block,
        wf(v),
        struct_free(v),
        0 <= p,
        p + enc(v).len() <= b.len(),
        b.subrange(p, p + enc(v).len()) == enc(v),
    ensures
        dec_block(b, p) == Ok::<(NodeView, int), DecodeError>((v, p + enc(v).len())),
    decreases v, 1int,
{
    lemma_auto_spec_u64_to_from_le_bytes();
    let e = enc(v);
    match v {
        NodeView::Block { number, contracts } => {
            let nb = spec_u64_to_le_bytes(number);
            let cb = spec_u64_to_le_bytes(contracts.len() as u64);
            let tail = enc_seq(contracts);
            lemma_slice_of_slice(b, p, e, 0, 8);
            assert(e.subrange(0, 8) =~= nb);
            lemma_slice_of_slice(b, p, e, 8, 16);
            assert(e.subrange(8, 16) =~= cb);
            lemma_slice_of_slice(b, p, e, 16, e.len() as int);
            assert(e.subrange(16, e.len() as int) =~= tail);
            assert forall|i: int|
                0 <= i < contracts.len() implies (#[trigger] contracts[i]) is Contract && wf(
                contracts[i],
            ) && struct_free(contracts[i]) by {
                assert(struct_free_seq(contracts));
            }
            lemma_rt_contract_seq(b, p + 16, contracts);
        },
        _ => {},
    }
}

/// Decoding the concatenated encodings of well-formed, struct-free contracts
/// yields them back, in order.
proof fn lemma_rt_contract_seq(b: Seq<u8>, p: int, s: Seq<NodeView>)
    requires
        forall|i: int|
            0 <= i < s.len() ==> (#[trigger] s[i]) is Contract && wf(s[i]) && struct_free(s[i]),
        0 <= p,
        p + enc_seq(s).len() <= b.len(),
        b.subrange(p, p + enc_seq(s).len()) == enc_seq(s),
    ensures
        dec_contracts(b, p, s.len() as int) == Ok::<(Seq<NodeView>, int), DecodeError>(
            (s, p + enc_seq(s).len()),
        ),
    decreases s, 0int,
{
    if s.len() == 0 {
        assert(s =~= Seq::<NodeView>::empty());
    } else {
        let e = enc_seq(s);
        let e0 = enc(s[0]);
        let rest = s.subrange(1, s.len() as int);
        let erest = enc_seq(rest);
        lemma_slice_of_slice(b, p, e, 0, e0.len() as int);
        assert(e.subrange(0, e0.len() as int) =~= e0);
        lemma_rt_contract(b, p, s[0]);
        lemma_slice_of_slice(b, p, e, e0.len() as int, e.len() as int);
        assert(e.subrange(e0.len() as int, e.len() as int) =~= erest);
        lemma_rt_contract_seq(b, p + e0.len() as int, rest);
        assert(seq![s[0]] + rest =~= s);
    }
}

/// Decoding the encoding of one well-formed, struct-free contract yields it
/// back.
proof fn lemma_rt_contract(b: Seq<u8>, p: int, v: NodeView)
    requires
        v is Contract,
        wf(v),
        struct_free(v),
        0 <= p,
        p + enc(v).len() <= b.len(),
        b.subrange(p, p + enc(v).len()) == enc(v),
    ensures
        dec_contract(b, p) == Ok::<(NodeView, int), DecodeError>((v, p + enc(v).len())),
        p < p + enc(v).len(),
    decreases v, 1int,
{
    lemma_auto_spec_u64_to_from_le_bytes();
    let e = enc(v);
    match v {
        NodeView::Contract { address, storage } => {
            let cb = spec_u64_to_le_bytes(storage.len() as u64);
            let tail = enc_seq(storage);
            lemma_slice_of_slice(b, p, e, 0, 20);
            assert(e.subrange(0, 20) =~= address);
            lemma_slice_of_slice(b, p, e, 20, 28);
            assert(e.subrange(20, 28) =~= cb);
            lemma_slice_of_slice(b, p, e, 28, e.len() as int);
            assert(e.subrange(28, e.len() as int) =~= tail);
            assert forall|i: int|
                0 <= i < storage.len() implies is_slot(#[trigger] storage[i]) && wf(storage[i])
                && struct_free(storage[i]) by {
                assert(struct_free_seq(storage));
            }
            lemma_rt_slot_seq(b, p + 28, storage);
        },
        _ => {},
    }
}

/// Decoding the concatenated encodings of well-formed, struct-free slots
/// yields them back, in order.
proof fn lemma_rt_slot_seq(b: Seq<u8>, p: int, s: Seq<NodeView>)
    requires
        forall|i: int|
            0 <= i < s.len() ==> is_slot(#[trigger] s[i]) && wf(s[i]) && struct_free(s[i]),
        0 <= p,
        p + enc_seq(s).len() <= b.len(),
        b.subrange(p, p + enc_seq(s).len()) == enc_seq(s),
    ensures
        dec_slots(b, p, s.len() as int) == Ok::<(Seq<NodeView>, int), DecodeError>(
            (s, p + enc_seq(s).len()),
        ),
    decreases s, 0int,
{
    if s.len() == 0 {
        assert(s =~= Seq::<NodeView>::empty());
    } else {
        let e = enc_seq(s);
        let e0 = enc(s[0]);
        let rest = s.subrange(1, s.len() as int);
        let erest = enc_seq(rest);
        lemma_slice_of_slice(b, p, e, 0, e0.len() as int);
        assert(e.subrange(0, e0.len() as int) =~= e0);
        lemma_rt_slot(b, p, s[0]);
        lemma_slice_of_slice(b, p, e, e0.len() as int, e.len() as int);
        assert(e.subrange(e0.len() as int, e.len() as int) =~= erest);
        lemma_rt_slot_seq(b, p + e0.len() as int, rest);
        assert(seq![s[0]] + rest =~= s);
    }
}

/// Decoding the encoding of one well-formed, struct-free slot yields it back.
proof fn lemma_rt_slot(b: Seq<u8>, p: int, v: NodeView)
    requires
        is_slot(v),
        wf(v),
        struct_free(v),
        0 <= p,
        p + enc(v).len() <= b.len(),
        b.subrange(p, p + enc(v).len()) == enc(v),
    ensures
        dec_slot(b, p) == Ok::<(NodeView, int), DecodeError>((v, p + enc(v).len())),
        p < p + enc(v).len(),
    decreases v, 1int,
{
    lemma_auto_spec_u64_to_from_le_bytes();
    let e = enc(v);
    assert(b.subrange(p, p + e.len())[0] == e[0]);
    match v {
        NodeView::Variable { name, value } => {
            let nbytes = encode_utf8(name);
            let lb = spec_u64_to_le_bytes(nbytes.len() as u64);
            assert(e[0] == 1u8);
            lemma_slice_of_slice(b, p, e, 1, 9);
            assert(e.subrange(1, 9) =~= lb);
            lemma_slice_of_slice(b, p, e, 9, 9 + nbytes.len() as int);
            assert(e.subrange(9, 9 + nbytes.len() as int) =~= nbytes);
            encode_utf8_valid_utf8(name);
            encode_utf8_decode_utf8(name);
            assert(dec_name(b, p + 1) == Ok::<(Seq<char>, int), DecodeError>(
                (name, p + 9 + nbytes.len() as int),
            ));
            lemma_slice_of_slice(b, p, e, 9 + nbytes.len() as int, e.len() as int);
            assert(e.subrange(9 + nbytes.len() as int, e.len() as int) =~= value);
        },
        NodeView::Mapping { name, entries } => {
            let nbytes = encode_utf8(name);
            let lb = spec_u64_to_le_bytes(nbytes.len() as u64);
            let cb = spec_u64_to_le_bytes(entries.len() as u64);
            let tail = enc_seq(entries);
            assert(e[0] == 3u8);
            lemma_slice_of_slice(b, p, e, 1, 9);
            assert(e.subrange(1, 9) =~= lb);
            lemma_slice_of_slice(b, p, e, 9, 9 + nbytes.len() as int);
            assert(e.subrange(9, 9 + nbytes.len() as int) =~= nbytes);
            encode_utf8_valid_utf8(name);
            encode_utf8_decode_utf8(name);
            assert(dec_name(b, p + 1) == Ok::<(Seq<char>, int), DecodeError>(
                (name, p + 9 + nbytes.len() as int),
            ));
            lemma_slice_of_slice(b, p, e, 9 + nbytes.len() as int, 17 + nbytes.len() as int);
            assert(e.subrange(9 + nbytes.len() as int, 17 + nbytes.len() as int) =~= cb);
            lemma_slice_of_slice(b, p, e, 17 + nbytes.len() as int, e.len() as int);
            assert(e.subrange(17 + nbytes.len() as int, e.len() as int) =~= tail);
            assert forall|i: int|
                0 <= i < entries.len() implies (#[trigger] entries[i]) is Entry && wf(entries[i])
                && struct_free(entries[i]) by {
                assert(struct_free_seq(entries));
            }
            lemma_rt_entry_seq(b, p + 17 + nbytes.len() as int, entries);
        },
        _ => {},
    }
}

/// Decoding the concatenated encodings of well-formed, struct-free entries
/// yields them back, in order.
proof fn lemma_rt_entry_seq(b: Seq<u8>, p: int, s: Seq<NodeView>)
    requires
        forall|i: int|
            0 <= i < s.len() ==> (#[trigger] s[i]) is Entry && wf(s[i]) && struct_free(s[i]),
        0 <= p,
        p + enc_seq(s).len() <= b.len(),
        b.subrange(p, p + enc_seq(s).len()) == enc_seq(s),
    ensures
        dec_entries(b, p, s.len() as int) == Ok::<(Seq<NodeView>, int), DecodeError>(
            (s, p + enc_seq(s).len()),
        ),
    decreases s, 0int,
{
    if s.len() == 0 {
        assert(s =~= Seq::<NodeView>::empty());
    } else {
        let e = enc_seq(s);
        let e0 = enc(s[0]);
        let rest = s.subrange(1, s.len() as int);
        let erest = enc_seq(rest);
        lemma_slice_of_slice(b, p, e, 0, e0.len() as int);
        assert(e.subrange(0, e0.len() as int) =~= e0);
        lemma_rt_entry(b, p, s[0]);
        lemma_slice_of_slice(b, p, e, e0.len() as int, e.len() as int);
        assert(e.subrange(e0.len() as int, e.len() as int) =~= erest);
        lemma_rt_entry_seq(b, p + e0.len() as int, rest);
        assert(seq![s[0]] + rest =~= s);
    }
}

/// Decoding the encoding of one well-formed, struct-free entry yields it
/// back.
proof fn lemma_rt_entry(b: Seq<u8>, p: int, v: NodeView)
    requires
        v is Entry,
        wf(v),
        struct_free(v),
        0 <= p,
        p + enc(v).len() <= b.len(),
        b.subrange(p, p + enc(v).len()) == enc(v),
    ensures
        dec_entry(b, p) == Ok::<(NodeView, int), DecodeError>((v, p + enc(v).len())),
        p < p + enc(v).len(),
    decreases v, 1int,
{
    let e = enc(v);
    match v {
        NodeView::Entry { key, entry } => {
            lemma_slice_of_slice(b, p, e, 0, 32);
            assert(e.subrange(0, 32) =~= key);
            lemma_slice_of_slice(b, p, e, 32, e.len() as int);
            assert(e.subrange(32, e.len() as int) =~= enc(*entry));
            lemma_rt_slot(b, p + 32, *entry);
        },
        _ => {},
    }
}

/// Round trip: for any well-formed tree whose slots are variables and
/// mappings only (struct slots excluded, as they have no defined encoding),
/// decoding the tree's encoding reproduces the tree exactly — and therefore a
/// tree whose digest equals the original's.
pub proof fn lemma_round_trip(v: NodeView)
    requires
        v is Block,
        wf(v),
        struct_free(v),
    ensures
        dec_block(enc(v), 0) == Ok::<(NodeView, int), DecodeError>((v, enc(v).len() as int)),
        (match dec_block(enc(v), 0) {
            Ok((w, _)) => blake2b512_of(hash_input(w)) == blake2b512_of(hash_input(v)),
            Err(_) => false,
        }),
{
    assert(enc(v).subrange(0, enc(v).len() as int) =~= enc(v));
    lemma_rt_block(enc(v), 0, v);
}

/// A slice of a partially present slice: if what remains of `b` from `p`
/// matches the start of `e`, any piece inside the present part matches too.
proof fn lemma_partial_slice(b: Seq<u8>, p: int, e: Seq<u8>, i: int, j: int)
    requires
        0 <= p <= b.len(),
        b.len() - p <= e.len(),
        b.subrange(p, b.len() as int) == e.subrange(0, b.len() - p),
        0 <= i <= j <= b.len() - p,
    ensures
        b.subrange(p + i, p + j) == e.subrange(i, j),
{
    assert forall|k: int| 0 <= k < j - i implies b.subrange(p + i, p + j)[k] == e.subrange(i, j)[k] by {
        assert(b.subrange(p, b.len() as int)[i + k] == e.subrange(0, b.len() - p)[i + k]);
        assert(b.subrange(p, b.len() as int)[i + k] == b[p + i + k]);
        assert(e.subrange(0, b.len() - p)[i + k] == e[i + k]);
        assert(b.subrange(p + i, p + j)[k] == b[p + i + k]);
        assert(e.subrange(i, j)[k] == e[i + k]);
    }
    assert(b.subrange(p + i, p + j) =~= e.subrange(i, j));
}

/// Decoding a block whose encoding is cut off before its end fails with an
/// out-of-bounds error.
proof fn lemma_trunc_block(b: Seq<u8>, p: int, v: NodeView)
    requires
        v is Block,
        wf(v),
        struct_free(v),
        0 <= p <= b.len(),
        b.len() < p + enc(v).len(),
        b.subrange(p, b.len() as int) == enc(v).subrange(0, b.len() - p),
    ensures
        dec_block(b, p) matches Err(DecodeError::OutOfBounds { .. }),
    decreases v, 1int,
{
    lemma_auto_spec_u64_to_from_le_bytes();
    let e = enc(v);
    let m = b.len() - p;
    match v {
        NodeView::Block { number, contracts } => {
            let cb = spec_u64_to_le_bytes(contracts.len() as u64);
            let tail = enc_seq(contracts);
            if m < 16 {
            } else {
                lemma_partial_slice(b, p, e, 8, 16);
                assert(e.subrange(8, 16) =~= cb);
                lemma_partial_slice(b, p, e, 16, m);
                assert(e.subrange(16, m) =~= tail.subrange(0, m - 16));
                assert forall|i: int|
                    0 <= i < contracts.len() implies (#[trigger] contracts[i]) is Contract && wf(
                    contracts[i],
                ) && struct_free(contracts[i]) by {
                    assert(struct_free_seq(contracts));
                }
                lemma_trunc_contract_seq(b, p + 16, contracts);
            }
        },
        _ => {},
    }
}

/// Decoding a run of contracts cut off before its end fails out-of-bounds.
proof fn lemma_trunc_contract_seq(b: Seq<u8>, p: int, s: Seq<NodeView>)
    requires
        forall|i: int|
            0 <= i < s.len() ==> (#[trigger] s[i]) is Contract && wf(s[i]) && struct_free(s[i]),
        0 <= p <= b.len(),
        b.len() < p + enc_seq(s).len(),
        b.subrange(p, b.len() as int) == enc_seq(s).subrange(0, b.len() - p),
    ensures
        dec_contracts(b, p, s.len() as int) matches Err(DecodeError::OutOfBounds { .. }),
    decreases s, 0int,
{
    let e = enc_seq(s);
    let m = b.len() - p;
    let e0 = enc(s[0]);
    let rest = s.subrange(1, s.len() as int);
    let erest = enc_seq(rest);
    if m < e0.len() {
        assert(e.subrange(0, m) =~= e0.subrange(0, m));
        lemma_trunc_contract(b, p, s[0]);
    } else {
        lemma_partial_slice(b, p, e, 0, e0.len() as int);
        assert(e.subrange(0, e0.len() as int) =~= e0);
        lemma_rt_contract(b, p, s[0]);
        lemma_partial_slice(b, p, e, e0.len() as int, m);
        assert(e.subrange(e0.len() as int, m) =~= erest.subrange(0, m - e0.len()));
        lemma_trunc_contract_seq(b, p + e0.len() as int, rest);
    }
}

/// Decoding one contract cut off before its end fails out-of-bounds.
proof fn lemma_trunc_contract(b: Seq<u8>, p: int, v: NodeView)
    requires
        v is Contract,
        wf(v),
        struct_free(v),
        0 <= p <= b.len(),
        b.len() < p + enc(v).len(),
        b.subrange(p, b.len() as int) == enc(v).subrange(0, b.len() - p),
    ensures
        dec_contract(b, p) matches Err(DecodeError::OutOfBounds { .. }),
    decreases v, 1int,
{
    lemma_auto_spec_u64_to_from_le_bytes();
    let e = enc(v);
    let m = b.len() - p;
    match v {
        NodeView::Contract { address, storage } => {
            let cb = spec_u64_to_le_bytes(storage.len() as u64);
            let tail = enc_seq(storage);
            if m < 28 {
            } else {
                lemma_partial_slice(b, p, e, 20, 28);
                assert(e.subrange(20, 28) =~= cb);
                lemma_partial_slice(b, p, e, 28, m);
                assert(e.subrange(28, m) =~= tail.subrange(0, m - 28));
                assert forall|i: int|
                    0 <= i < storage.len() implies is_slot(#[trigger] storage[i]) && wf(storage[i])
                    && struct_free(storage[i]) by {
                    assert(struct_free_seq(storage));
                }
                lemma_trunc_slot_seq(b, p + 28, storage);
            }
        },
        _ => {},
    }
}

/// Decoding a run of slots cut off before its end fails out-of-bounds.
proof fn lemma_trunc_slot_seq(b: Seq<u8>, p: int, s: Seq<NodeView>)
    requires
        forall|i: int|
            0 <= i < s.len() ==> is_slot(#[trigger] s[i]) && wf(s[i]) && struct_free(s[i]),
        0 <= p <= b.len(),
        b.len() < p + enc_seq(s).len(),
        b.subrange(p, b.len() as int) == enc_seq(s).subrange(0, b.len() - p),
    ensures
        dec_slots(b, p, s.len() as int) matches Err(DecodeError::OutOfBounds { .. }),
    decreases s, 0int,
{
    let e = enc_seq(s);
    let m = b.len() - p;
    let e0 = enc(s[0]);
    let rest = s.subrange(1, s.len() as int);
    let erest = enc_seq(rest);
    if m < e0.len() {
        assert(e.subrange(0, m) =~= e0.subrange(0, m));
        lemma_trunc_slot(b, p, s[0]);
    } else {
        lemma_partial_slice(b, p, e, 0, e0.len() as int);
        assert(e.subrange(0, e0.len() as int) =~= e0);
        lemma_rt_slot(b, p, s[0]);
        lemma_partial_slice(b, p, e, e0.len() as int, m);
        assert(e.subrange(e0.len() as int, m) =~= erest.subrange(0, m - e0.len()));
        lemma_trunc_slot_seq(b, p + e0.len() as int, rest);
    }
}

/// Decoding one slot cut off before its end fails out-of-bounds.
proof fn lemma_trunc_slot(b: Seq<u8>, p: int, v: NodeView)
    requires
        is_slot(v),
        wf(v),
        struct_free(v),
        0 <= p <= b.len(),
        b.len() < p + enc(v).len(),
        b.subrange(p, b.len() as int) == enc(v).subrange(0, b.len() - p),
    ensures
        dec_slot(b, p) matches Err(DecodeError::OutOfBounds { .. }),
    decreases v, 1int,
{
    lemma_auto_spec_u64_to_from_le_bytes();
    let e = enc(v);
    let m = b.len() - p;
    if m >= 1 {
        assert(b.subrange(p, b.len() as int)[0] == e.subrange(0, m)[0]);
        assert(b[p] == e[0]);
    }
    match v {
        NodeView::Variable { name, value } => {
            let nbytes = encode_utf8(name);
            let lb = spec_u64_to_le_bytes(nbytes.len() as u64);
            assert(e[0] == 1u8);
            if m < 9 {
            } else {
                lemma_partial_slice(b, p, e, 1, 9);
                assert(e.subrange(1, 9) =~= lb);
                if m < 9 + nbytes.len() {
                } else {
                    lemma_partial_slice(b, p, e, 9, 9 + nbytes.len() as int);
                    assert(e.subrange(9, 9 + nbytes.len() as int) =~= nbytes);
                    encode_utf8_valid_utf8(name);
                    encode_utf8_decode_utf8(name);
                    assert(dec_name(b, p + 1) == Ok::<(Seq<char>, int), DecodeError>(
                        (name, p + 9 + nbytes.len() as int),
                    ));
                }
            }
        },
        NodeView::Mapping { name, entries } => {
            let nbytes = encode_utf8(name);
            let lb = spec_u64_to_le_bytes(nbytes.len() as u64);
            let cb = spec_u64_to_le_bytes(entries.len() as u64);
            let tail = enc_seq(entries);
            assert(e[0] == 3u8);
            if m < 9 {
            } else {
                lemma_partial_slice(b, p, e, 1, 9);
                assert(e.subrange(1, 9) =~= lb);
                if m < 9 + nbytes.len() {
                } else {
                    lemma_partial_slice(b, p, e, 9, 9 + nbytes.len() as int);
                    assert(e.subrange(9, 9 + nbytes.len() as int) =~= nbytes);
                    encode_utf8_valid_utf8(name);
                    encode_utf8_decode_utf8(name);
                    assert(dec_name(b, p + 1) == Ok::<(Seq<char>, int), DecodeError>(
                        (name, p + 9 + nbytes.len() as int),
                    ));
                    if m < 17 + nbytes.len() {
                    } else {
                        lemma_partial_slice(b, p, e, 9 + nbytes.len() as int, 17 + nbytes.len() as int);
                        assert(e.subrange(9 + nbytes.len() as int, 17 + nbytes.len() as int) =~= cb);
                        lemma_partial_slice(b, p, e, 17 + nbytes.len() as int, m);
                        assert(e.subrange(17 + nbytes.len() as int, m) =~= tail.subrange(
                            0,
                            m - 17 - nbytes.len(),
                        ));
                        assert forall|i: int|
                            0 <= i < entries.len() implies (#[trigger] entries[i]) is Entry && wf(
                            entries[i],
                        ) && struct_free(entries[i]) by {
                            assert(struct_free_seq(entries));
                        }
                        lemma_trunc_entry_seq(b, p + 17 + nbytes.len() as int, entries);
                    }
                }
            }
        },
        _ => {},
    }
}

/// Decoding a run of entries cut off before its end fails out-of-bounds.
proof fn lemma_trunc_entry_seq(b: Seq<u8>, p: int, s: Seq<NodeView>)
    requires
        forall|i: int|
            0 <= i < s.len() ==> (#[trigger] s[i]) is Entry && wf(s[i]) && struct_free(s[i]),
        0 <= p <= b.len(),
        b.len() < p + enc_seq(s).len(),
        b.subrange(p, b.len() as int) == enc_seq(s).subrange(0, b.len() - p),
    ensures
        dec_entries(b, p, s.len() as int) matches Err(DecodeError::OutOfBounds { .. }),
    decreases s, 0int,
{
    let e = enc_seq(s);
    let m = b.len() - p;
    let e0 = enc(s[0]);
    let rest = s.subrange(1, s.len() as int);
    let erest = enc_seq(rest);
    if m < e0.len() {
        assert(e.subrange(0, m) =~= e0.subrange(0, m));
        lemma_trunc_entry(b, p, s[0]);
    } else {
        lemma_partial_slice(b, p, e, 0, e0.len() as int);
        assert(e.subrange(0, e0.len() as int) =~= e0);
        lemma_rt_entry(b, p, s[0]);
        lemma_partial_slice(b, p, e, e0.len() as int, m);
        assert(e.subrange(e0.len() as int, m) =~= erest.subrange(0, m - e0.len()));
        lemma_trunc_entry_seq(b, p + e0.len() as int, rest);
    }
}

/// Decoding one entry cut off before its end fails out-of-bounds.
proof fn lemma_trunc_entry(b: Seq<u8>, p: int, v: NodeView)
    requires
        v is Entry,
        wf(v),
        struct_free(v),
        0 <= p <= b.len(),
        b.len() < p + enc(v).len(),
        b.subrange(p, b.len() as int) == enc(v).subrange(0, b.len() - p),
    ensures
        dec_entry(b, p) matches Err(DecodeError::OutOfBounds { .. }),
    decreases v, 1int,
{
    let e = enc(v);
    let m = b.len() - p;
    match v {
        NodeView::Entry { key, entry } => {
            if m < 32 {
            } else {
                lemma_partial_slice(b, p, e, 0, 32);
                assert(e.subrange(0, 32) =~= key);
                lemma_partial_slice(b, p, e, 32, m);
                assert(e.subrange(32, m) =~= enc(*entry).subrange(0, m - 32));
                lemma_trunc_slot(b, p + 32, *entry);
            }
        },
        _ => {},
    }
}

/// Boundary: decoding any strict prefix of a well-formed tree's encoding
/// fails with an out-of-bounds error — never a panic, never a partial tree,
/// and never another error kind.
pub proof fn lemma_truncation_out_of_bounds(v: NodeView, k: int)
    requires
        v is Block,
        wf(v),
        struct_free(v),
        0 <= k < enc(v).len(),
    ensures
        dec_block(enc(v).take(k), 0) matches Err(DecodeError::OutOfBounds { .. }),
{
    let b = enc(v).take(k);
    assert(b.subrange(0, b.len() as int) =~= enc(v).subrange(0, b.len() - 0));
    lemma_trunc_block(b, 0, v);
}

/// Whatever a successful slot decode returns is a well-formed, struct-free
/// slot, and the position moves forward without leaving the buffer.
proof fn lemma_dec_wf_slot(b: Seq<u8>, p: int)
    requires
        0 <= p,
    ensures
        (match dec_slot(b, p) {
            Ok((v, q)) => is_slot(v) && wf(v) && struct_free(v) && p < q <= b.len(),
            Err(_) => true,
        }),
    decreases b.len() - p, 3int,
{
    match spec_read_u8(b, p) {
        Ok((tag, p1)) => {
            if tag == 1 {
                match dec_name(b, p1) {
                    Ok((name, q1)) => {
                        match spec_read_u64_le(b, p1) {
                            Ok((n, pn)) => {
                                match spec_read_exact(b, pn, n as int) {
                                    Ok((nb, q)) => {
                                        vstd::utf8::decode_utf8_encode_utf8(nb);
                                    },
                                    Err(_) => {},
                                }
                            },
                            Err(_) => {},
                        }
                    },
                    Err(_) => {},
                }
            } else if tag == 3 {
                lemma_dec_wf_mapping(b, p1);
            }
        },
        Err(_) => {},
    }
}

/// Whatever a successful mapping decode returns is well formed and
/// struct-free.
proof fn lemma_dec_wf_mapping(b: Seq<u8>, p: int)
    requires
        0 <= p,
    ensures
        (match dec_mapping(b, p) {
            Ok((v, q)) => v is Mapping && wf(v) && struct_free(v) && p < q <= b.len(),
            Err(_) => true,
        }),
    decreases b.len() - p, 2int,
{
    match dec_name(b, p) {
        Ok((name, p1)) => {
            match spec_read_u64_le(b, p) {
                Ok((n, pn)) => {
                    match spec_read_exact(b, pn, n as int) {
                        Ok((nb, q)) => {
                            vstd::utf8::decode_utf8_encode_utf8(nb);
                        },
                        Err(_) => {},
                    }
                },
                Err(_) => {},
            }
            match spec_read_u64_le(b, p1) {
                Ok((cnt, p2)) => {
                    lemma_dec_wf_entries(b, p2, cnt as int);
                    match dec_entries(b, p2, cnt as int) {
                        Ok((es, q)) => {
                            assert(struct_free_seq(es));
                        },
                        Err(_) => {},
                    }
                },
                Err(_) => {},
            }
        },
        Err(_) => {},
    }
}

/// Whatever a successful run of entry decodes returns is a sequence of that
/// many well-formed, struct-free entries.
proof fn lemma_dec_wf_entries(b: Seq<u8>, p: int, cnt: int)
    requires
        0 <= p <= b.len(),
        0 <= cnt,
    ensures
        (match dec_entries(b, p, cnt) {
            Ok((s, q)) => s.len() == cnt && p <= q <= b.len() && forall|i: int|
                0 <= i < s.len() ==> (#[trigger] s[i]) is Entry && wf(s[i]) && struct_free(s[i]),
            Err(_) => true,
        }),
    decreases b.len() - p, cnt,
{
    if cnt <= 0 {
    } else {
        lemma_dec_wf_entry(b, p);
        match dec_entry(b, p) {
            Ok((e, p1)) => {
                if p < p1 <= b.len() {
                    lemma_dec_wf_entries(b, p1, cnt - 1);
                    match dec_entries(b, p1, cnt - 1) {
                        Ok((rest, q)) => {
                            assert forall|i: int|
                                0 <= i < (seq![e] + rest).len() implies (#[trigger] (seq![e]
                                + rest)[i]) is Entry && wf((seq![e] + rest)[i]) && struct_free(
                                (seq![e] + rest)[i],
                            ) by {
                                if i == 0 {
                                } else {
                                    assert((seq![e] + rest)[i] == rest[i - 1]);
                                }
                            }
                        },
                        Err(_) => {},
                    }
                }
            },
            Err(_) => {},
        }
    }
}

/// Whatever a successful entry decode returns is a well-formed, struct-free
/// entry.
proof fn lemma_dec_wf_entry(b: Seq<u8>, p: int)
    requires
        0 <= p,
    ensures
        (match dec_entry(b, p) {
            Ok((v, q)) => v is Entry && wf(v) && struct_free(v) && p < q <= b.len(),
            Err(_) => true,
        }),
    decreases b.len() - p, 0int,
{
    match spec_read_exact(b, p, 32) {
        Ok((key, p1)) => {
            lemma_dec_wf_slot(b, p1);
        },
        Err(_) => {},
    }
}

/// Whatever a successful run of slot decodes returns is a sequence of that
/// many well-formed, struct-free slots.
proof fn lemma_dec_wf_slots(b: Seq<u8>, p: int, cnt: int)
    requires
        0 <= p <= b.len(),
        0 <= cnt,
    ensures
        (match dec_slots(b, p, cnt) {
            Ok((s, q)) => s.len() == cnt && p <= q <= b.len() && forall|i: int|
                0 <= i < s.len() ==> is_slot(#[trigger] s[i]) && wf(s[i]) && struct_free(s[i]),
            Err(_) => true,
        }),
    decreases cnt,
{
    if cnt <= 0 {
    } else {
        lemma_dec_wf_slot(b, p);
        match dec_slot(b, p) {
            Ok((v, p1)) => {
                lemma_dec_wf_slots(b, p1, cnt - 1);
                match dec_slots(b, p1, cnt - 1) {
                    Ok((rest, q)) => {
                        assert forall|i: int|
                            0 <= i < (seq![v] + rest).len() implies is_slot(
                            #[trigger] (seq![v] + rest)[i],
                        ) && wf((seq![v] + rest)[i]) && struct_free((seq![v] + rest)[i]) by {
                            if i == 0 {
                            } else {
                                assert((seq![v] + rest)[i] == rest[i - 1]);
                            }
                        }
                    },
                    Err(_) => {},
                }
            },
            Err(_) => {},
        }
    }
}

/// Whatever a successful contract decode returns is a well-formed,
/// struct-free contract.
proof fn lemma_dec_wf_contract(b: Seq<u8>, p: int)
    requires
        0 <= p,
    ensures
        (match dec_contract(b, p) {
            Ok((v, q)) => v is Contract && wf(v) && struct_free(v) && p <= q <= b.len(),
            Err(_) => true,
        }),
{
    match spec_read_exact(b, p, 20) {
        Ok((address, p1)) => {
            match spec_read_u64_le(b, p1) {
                Ok((cnt, p2)) => {
                    lemma_dec_wf_slots(b, p2, cnt as int);
                    match dec_slots(b, p2, cnt as int) {
                        Ok((sl, q)) => {
                            assert(struct_free_seq(sl));
                        },
                        Err(_) => {},
                    }
                },
                Err(_) => {},
            }
        },
        Err(_) => {},
    }
}

/// Whatever a successful run of contract decodes returns is a sequence of
/// that many well-formed, struct-free contracts.
proof fn lemma_dec_wf_contracts(b: Seq<u8>, p: int, cnt: int)
    requires
        0 <= p <= b.len(),
        0 <= cnt,
    ensures
        (match dec_contracts(b, p, cnt) {
            Ok((s, q)) => s.len() == cnt && p <= q <= b.len() && forall|i: int|
                0 <= i < s.len() ==> (#[trigger] s[i]) is Contract && wf(s[i]) && struct_free(
                    s[i],
                ),
            Err(_) => true,
        }),
    decreases cnt,
{
    if cnt <= 0 {
    } else {
        lemma_dec_wf_contract(b, p);
        match dec_contract(b, p) {
            Ok((v, p1)) => {
                lemma_dec_wf_contracts(b, p1, cnt - 1);
                match dec_contracts(b, p1, cnt - 1) {
                    Ok((rest, q)) => {
                        assert forall|i: int|
                            0 <= i < (seq![v] + rest).len() implies (#[trigger] (seq![v]
                            + rest)[i]) is Contract && wf((seq![v] + rest)[i]) && struct_free(
                            (seq![v] + rest)[i],
                        ) by {
                            if i == 0 {
                            } else {
                                assert((seq![v] + rest)[i] == rest[i - 1]);
                            }
                        }
                    },
                    Err(_) => {},
                }
            },
            Err(_) => {},
        }
    }
}

/// Whatever a successful decode returns is a well-formed, struct-free block:
/// the decoder never hands back a tree it would refuse to re-encode, so a
/// decoded tree can always be serialized, hashed and rendered.
pub proof fn lemma_decode_well_formed(b: Seq<u8>, p: int)
    requires
        0 <= p,
    ensures
        (match dec_block(b, p) {
            Ok((v, q)) => v is Block && wf(v) && struct_free(v) && p <= q <= b.len(),
            Err(_) => true,
        }),
{
    match spec_read_u64_le(b, p) {
        Ok((number, p1)) => {
            match spec_read_u64_le(b, p1) {
                Ok((cnt, p2)) => {
                    lemma_dec_wf_contracts(b, p2, cnt as int);
                    match dec_contracts(b, p2, cnt as int) {
                        Ok((cs, q)) => {
                            assert(struct_free_seq(cs));
                        },
                        Err(_) => {},
                    }
                },
                Err(_) => {},
            }
        },
        Err(_) => {},
    }
}

/// Determinism: the digest is a pure function of the tree's content and
/// order, so hashing the same tree twice yields identical 64-byte output.
pub proof fn lemma_hash_deterministic(v: NodeView)
    ensures
        blake2b512_of(hash_input(v)) == blake2b512_of(hash_input(v)),
{
}

/// Order sensitivity of the hasher input: swapping two adjacent siblings
/// whose streams are distinct but equally long changes the bytes fed to the
/// digest. (Two distinct streams of different lengths can concatenate to the
/// same whole, so the restriction to equal lengths is necessary.)
pub proof fn lemma_swap_changes_hash_stream(pre: Seq<u8>, a: Seq<u8>, c: Seq<u8>, post: Seq<u8>)
    requires
        a != c,
        a.len() == c.len(),
    ensures
        pre + a + c + post != pre + c + a + post,
{
    if pre + a + c + post == pre + c + a + post {
        assert forall|k: int| 0 <= k < a.len() implies a[k] == c[k] by {
            assert((pre + a + c + post)[pre.len() + k] == (pre + c + a + post)[pre.len() + k]);
        }
        assert(a =~= c);
    }
}

/// The hasher stream of a sequence splits at any index.
proof fn lemma_hash_input_seq_split(s: Seq<NodeView>, j: int)
    requires
        0 <= j <= s.len(),
    ensures
        hash_input_seq(s) == hash_input_seq(s.take(j)) + hash_input_seq(s.skip(j)),
    decreases j,
{
    if j == 0 {
        assert(s.take(0) =~= Seq::<NodeView>::empty());
        assert(s.skip(0) =~= s);
        assert(hash_input_seq(Seq::<NodeView>::empty()) + hash_input_seq(s) =~= hash_input_seq(s));
    } else {
        let tail = s.subrange(1, s.len() as int);
        lemma_hash_input_seq_split(tail, j - 1);
        assert(s.take(j).subrange(1, j) =~= tail.take(j - 1));
        assert(s.take(j)[0] == s[0]);
        assert(s.skip(j) =~= tail.skip(j - 1));
        assert(hash_input_seq(s) =~= hash_input_seq(s.take(j)) + hash_input_seq(s.skip(j)));
    }
}

/// Order sensitivity at the tree level: swapping two adjacent sibling
/// contracts whose hasher streams are distinct but equally long changes the
/// block's hasher input. (Without the length restriction two distinct
/// siblings can swap without changing the concatenated stream.)
pub proof fn lemma_sibling_swap_order_sensitive(number: u64, s: Seq<NodeView>, j: int)
    requires
        0 <= j,
        j + 1 < s.len(),
        hash_input(s[j]) != hash_input(s[j + 1]),
        hash_input(s[j]).len() == hash_input(s[j + 1]).len(),
    ensures
        hash_input(NodeView::Block { number, contracts: s }) != hash_input(
            NodeView::Block { number, contracts: s.update(j, s[j + 1]).update(j + 1, s[j]) },
        ),
{
    let t = s.update(j, s[j + 1]).update(j + 1, s[j]);
    let a = hash_input(s[j]);
    let c = hash_input(s[j + 1]);
    let pre = hash_input_seq(s.take(j));
    let post = hash_input_seq(s.skip(j + 2));

    lemma_hash_input_seq_split(s, j);
    assert(s.skip(j)[0] == s[j]);
    assert(s.skip(j).subrange(1, s.skip(j).len() as int) =~= s.skip(j + 1));
    assert(hash_input_seq(s.skip(j)) == a + hash_input_seq(s.skip(j + 1)));
    assert(s.skip(j + 1)[0] == s[j + 1]);
    assert(s.skip(j + 1).subrange(1, s.skip(j + 1).len() as int) =~= s.skip(j + 2));
    assert(hash_input_seq(s.skip(j + 1)) == c + hash_input_seq(s.skip(j + 2)));
    assert(hash_input_seq(s) =~= pre + (a + (c + post)));
    assert(pre + (a + (c + post)) =~= pre + a + c + post);

    lemma_hash_input_seq_split(t, j);
    assert(t.take(j) =~= s.take(j));
    assert(t[j] == s[j + 1]);
    assert(t[j + 1] == s[j]);
    assert(t.skip(j)[0] == t[j]);
    assert(t.skip(j).subrange(1, t.skip(j).len() as int) =~= t.skip(j + 1));
    assert(hash_input_seq(t.skip(j)) == c + hash_input_seq(t.skip(j + 1)));
    assert(t.skip(j + 1)[0] == t[j + 1]);
    assert(t.skip(j + 1).subrange(1, t.skip(j + 1).len() as int) =~= t.skip(j + 2));
    assert(t.skip(j + 2) =~= s.skip(j + 2));
    assert(hash_input_seq(t.skip(j + 1)) == a + hash_input_seq(s.skip(j + 2)));
    assert(hash_input_seq(t) =~= pre + (c + (a + post)));
    assert(pre + (c + (a + post)) =~= pre + c + a + post);

    lemma_swap_changes_hash_stream(pre, a, c, post);

    let nb = spec_u64_to_be_bytes(number);
    if nb + hash_input_seq(s) == nb + hash_input_seq(t) {
        assert forall|k: int|
            0 <= k < hash_input_seq(s).len() implies hash_input_seq(s)[k] == hash_input_seq(t)[k]
        by {
            assert((nb + hash_input_seq(s))[nb.len() + k] == (nb + hash_input_seq(t))[nb.len()
                + k]);
        }
        assert(hash_input_seq(s) =~= hash_input_seq(t));
    }
}

/// Empty containers: a block with no contracts feeds the digest its header
/// alone, and a mapping with no entries its name alone.
pub proof fn lemma_empty_container_stream(number: u64, name: Seq<char>)
    ensures
        hash_input(NodeView::Block { number, contracts: Seq::empty() }) == spec_u64_to_be_bytes(
            number,
        ),
        hash_input(NodeView::Mapping { name, entries: Seq::empty() }) == encode_utf8(name),
{
    assert(hash_input_seq(Seq::<NodeView>::empty()) == Seq::<u8>::empty());
    assert(spec_u64_to_be_bytes(number) + Seq::<u8>::empty() =~= spec_u64_to_be_bytes(number));
    assert(encode_utf8(name) + Seq::<u8>::empty() =~= encode_utf8(name));
}

} // verus!
