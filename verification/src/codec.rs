//! The executable codec: serializing a tree to bytes and parsing bytes back
//! into a tree, each proved equal to the wire grammar in [`crate::wire`].
use crate::cursor::Cursor;
use crate::errors::DecodeError;
use vstd::string::StrSliceExecFns;
use crate::node::{
    lemma_views_of, lemma_views_of_push, node_view, struct_free, struct_free_seq, views_of, Node,
};
use crate::wire::{
    dec_block, dec_contract, dec_contracts, dec_entries, dec_entry, dec_mapping, dec_name,
    dec_slot, dec_slots, dec_variable, enc, enc_seq,
};
use vstd::bytes::u64_to_le_bytes;
use vstd::prelude::*;
use vstd::utf8::{decode_utf8, valid_utf8};

verus! {

/// Relies on `std::str::from_utf8`: it succeeds exactly on the byte sequences
/// that satisfy vstd's `valid_utf8`, and yields the text those bytes encode.
#[verifier::external_body]
pub(crate) fn utf8_to_text(bytes: &Vec<u8>) -> (r: Option<String>)
    ensures
        r is Some <==> valid_utf8(bytes@),
        r matches Some(s) ==> s@ == decode_utf8(bytes@),
{
    match std::str::from_utf8(bytes.as_slice()) {
        Ok(s) => Some(s.to_string()),
        Err(_) => None,
    }
}

/// Append every byte of `src` to `out`, in order.
pub(crate) fn push_all(out: &mut Vec<u8>, src: &Vec<u8>)
    ensures
        final(out)@ == old(out)@ + src@,
{
    let mut i: usize = 0;
    while i < src.len()
        invariant
            0 <= i <= src@.len(),
            out@ == old(out)@ + src@.subrange(0, i as int),
        decreases src@.len() - i,
    {
        let b = src[i];
        out.push(b);
        proof {
            assert(out@ =~= old(out)@ + src@.subrange(0, i + 1));
        }
        i = i + 1;
    }
    proof {
        assert(src@.subrange(0, src@.len() as int) =~= src@);
    }
}

/// Appending one node to a sequence extends its encoding on the right.
proof fn lemma_enc_seq_push(s: Seq<crate::node::NodeView>, x: crate::node::NodeView)
    ensures
        enc_seq(s.push(x)) == enc_seq(s) + enc(x),
    decreases s.len(),
{
    let t = s.push(x);
    if s.len() == 0 {
        assert(t.subrange(1, t.len() as int) =~= Seq::<crate::node::NodeView>::empty());
        assert(enc_seq(Seq::<crate::node::NodeView>::empty()) == Seq::<u8>::empty());
        assert(t[0] == x);
        assert(enc_seq(t) =~= enc(x));
        assert(enc_seq(s) + enc(x) =~= enc(x));
    } else {
        assert(t.subrange(1, t.len() as int) =~= s.subrange(1, s.len() as int).push(x));
        lemma_enc_seq_push(s.subrange(1, s.len() as int), x);
        assert(enc_seq(t) =~= enc_seq(s) + enc(x));
    }
}

impl Node {
    /// Write this tree's byte encoding onto the end of `out`. The tree must
    /// be free of struct slots: those have no defined encoding.
    pub fn serialize(&self, out: &mut Vec<u8>)
        requires
            struct_free(self@),
        ensures
            final(out)@ == old(out)@ + enc(self@),
        decreases *self,
    {
        match self {
            Node::Block { number, contracts } => {
                let nb = u64_to_le_bytes(*number);
                push_all(out, &nb);
                let cb = u64_to_le_bytes(contracts.len() as u64);
                push_all(out, &cb);
                proof {
                    lemma_views_of(contracts@);
                }
                serialize_all(contracts, out);
                proof {
                    assert(out@ =~= old(out)@ + enc(self@));
                }
            },
            Node::Contract { address, storage } => {
                push_all(out, address);
                let cb = u64_to_le_bytes(storage.len() as u64);
                push_all(out, &cb);
                proof {
                    lemma_views_of(storage@);
                }
                serialize_all(storage, out);
                proof {
                    assert(out@ =~= old(out)@ + enc(self@));
                }
            },
            Node::Variable { name, value } => {
                let tag = self.to_id();
                out.push(tag);
                let name_bytes = name.as_str().as_bytes_vec();
                let lb = u64_to_le_bytes(name_bytes.len() as u64);
                push_all(out, &lb);
                push_all(out, &name_bytes);
                push_all(out, value);
                proof {
                    assert(out@ =~= old(out)@ + enc(self@));
                }
            },
            Node::Struct { .. } => {
                proof {
                    assert(false);
                }
            },
            Node::Mapping { name, entries } => {
                let tag = self.to_id();
                out.push(tag);
                let name_bytes = name.as_str().as_bytes_vec();
                let lb = u64_to_le_bytes(name_bytes.len() as u64);
                push_all(out, &lb);
                push_all(out, &name_bytes);
                let cb = u64_to_le_bytes(entries.len() as u64);
                push_all(out, &cb);
                proof {
                    lemma_views_of(entries@);
                }
                serialize_all(entries, out);
                proof {
                    assert(out@ =~= old(out)@ + enc(self@));
                }
            },
            Node::Entry { key, entry } => {
                push_all(out, key);
                entry.serialize(out);
                proof {
                    assert(out@ =~= old(out)@ + enc(self@));
                }
            },
        }
    }
}

impl Node {
    /// Parse a whole tree from the cursor's current position. The result, and
    /// the error on malformed input, are exactly what the wire grammar's
    /// [`dec_block`] gives.
    pub fn parse(b: &mut Cursor) -> (r: Result<Node, DecodeError>)
        requires
            old(b).inv(),
        ensures
            final(b).inv(),
            final(b).data() == old(b).data(),
            (match dec_block(old(b).data(), old(b).at()) {
                Ok((v, p)) => r matches Ok(n) && n@ == v && final(b).at() == p,
                Err(e) => r == Err::<Node, DecodeError>(e),
            }),
    {
        Node::parse_block(b)
    }

    #[verifier::loop_isolation(false)]
    fn parse_block(b: &mut Cursor) -> (r: Result<Node, DecodeError>)
        requires
            old(b).inv(),
        ensures
            final(b).inv(),
            final(b).data() == old(b).data(),
            (match dec_block(old(b).data(), old(b).at()) {
                Ok((v, p)) => r matches Ok(n) && n@ == v && final(b).at() == p,
                Err(e) => r == Err::<Node, DecodeError>(e),
            }),
    {
        let ghost data = old(b).data();
        let number = match b.read_u64_le() {
            Ok(v) => v,
            Err(e) => { return Err(e) },
        };
        let cnt = match b.read_u64_le() {
            Ok(v) => v,
            Err(e) => { return Err(e) },
        };
        let ghost p2 = b.at();
        let mut contracts: Vec<Node> = Vec::new();
        let mut i: u64 = 0;
        while i < cnt
            invariant
                b.inv(),
                b.data() == data,
                0 <= i <= cnt,
                (dec_contracts(data, p2, cnt as int) == match dec_contracts(
                    data,
                    b.at(),
                    cnt - i,
                ) {
                    Ok((rest, p)) => Ok::<_, DecodeError>((views_of(contracts@) + rest, p)),
                    Err(e) => Err::<(Seq<crate::node::NodeView>, int), DecodeError>(e),
                }),
            decreases cnt - i,
        {
            let ghost acc = contracts@;
            let c = match Node::parse_contract(b) {
                Ok(c) => c,
                Err(e) => { return Err(e) },
            };
            contracts.push(c);
            i = i + 1;
            proof {
                lemma_views_of_push(acc, c);
                assert(views_of(acc).push(c@) =~= views_of(acc) + seq![c@]);
                assert forall|rest: Seq<crate::node::NodeView>|
                    true implies views_of(acc) + (seq![c@] + rest) =~= views_of(acc.push(c))
                    + rest by {}
            }
        }
        proof {
            assert(views_of(contracts@) + Seq::<crate::node::NodeView>::empty() =~= views_of(
                contracts@,
            ));
        }
        Ok(Node::Block { number, contracts })
    }

    #[verifier::loop_isolation(false)]
    fn parse_contract(b: &mut Cursor) -> (r: Result<Node, DecodeError>)
        requires
            old(b).inv(),
        ensures
            final(b).inv(),
            final(b).data() == old(b).data(),
            (match dec_contract(old(b).data(), old(b).at()) {
                Ok((v, p)) => r matches Ok(n) && n@ == v && final(b).at() == p && old(b).at() < p,
                Err(e) => r == Err::<Node, DecodeError>(e),
            }),
    {
        let ghost data = old(b).data();
        let address = match b.read_exact(20) {
            Ok(v) => v,
            Err(e) => { return Err(e) },
        };
        let cnt = match b.read_u64_le() {
            Ok(v) => v,
            Err(e) => { return Err(e) },
        };
        let ghost p2 = b.at();
        let mut storage: Vec<Node> = Vec::new();
        let mut i: u64 = 0;
        while i < cnt
            invariant
                b.inv(),
                b.data() == data,
                0 <= i <= cnt,
                p2 <= b.at(),
                (dec_slots(data, p2, cnt as int) == match dec_slots(data, b.at(), cnt - i) {
                    Ok((rest, p)) => Ok::<_, DecodeError>((views_of(storage@) + rest, p)),
                    Err(e) => Err::<(Seq<crate::node::NodeView>, int), DecodeError>(e),
                }),
            decreases cnt - i,
        {
            let ghost acc = storage@;
            let s = match Node::parse_slot(b) {
                Ok(s) => s,
                Err(e) => { return Err(e) },
            };
            storage.push(s);
            i = i + 1;
            proof {
                lemma_views_of_push(acc, s);
                assert(views_of(acc).push(s@) =~= views_of(acc) + seq![s@]);
                assert forall|rest: Seq<crate::node::NodeView>|
                    true implies views_of(acc) + (seq![s@] + rest) =~= views_of(acc.push(s))
                    + rest by {}
            }
        }
        proof {
            assert(views_of(storage@) + Seq::<crate::node::NodeView>::empty() =~= views_of(
                storage@,
            ));
        }
        Ok(Node::Contract { address, storage })
    }

    fn parse_slot(b: &mut Cursor) -> (r: Result<Node, DecodeError>)
        requires
            old(b).inv(),
        ensures
            final(b).inv(),
            final(b).data() == old(b).data(),
            (match dec_slot(old(b).data(), old(b).at()) {
                Ok((v, p)) => r matches Ok(n) && n@ == v && final(b).at() == p && old(b).at() < p,
                Err(e) => r == Err::<Node, DecodeError>(e),
            }),
        decreases old(b).data().len() - old(b).at(), 3int,
    {
        let tag = match b.read_u8() {
            Ok(t) => t,
            Err(e) => { return Err(e) },
        };
        if tag == 1 {
            Node::parse_variable(b)
        } else if tag == 2 {
            Node::parse_struct(b)
        } else if tag == 3 {
            Node::parse_mapping(b)
        } else {
            Err(DecodeError::InvalidEncoding { offset: b.position() - 1, found: Some(tag) })
        }
    }

    /// A struct slot has no defined wire encoding; parsing one always fails
    /// rather than guessing a field layout.
    fn parse_struct(b: &mut Cursor) -> (r: Result<Node, DecodeError>)
        requires
            old(b).inv(),
            old(b).at() >= 1,
        ensures
            *final(b) == *old(b),
            r == Err::<Node, DecodeError>(
                DecodeError::UnsupportedNode { offset: (old(b).at() - 1) as usize },
            ),
    {
        Err(DecodeError::UnsupportedNode { offset: b.position() - 1 })
    }

    fn parse_variable(b: &mut Cursor) -> (r: Result<Node, DecodeError>)
        requires
            old(b).inv(),
        ensures
            final(b).inv(),
            final(b).data() == old(b).data(),
            (match dec_variable(old(b).data(), old(b).at()) {
                Ok((v, p)) => r matches Ok(n) && n@ == v && final(b).at() == p && old(b).at() < p,
                Err(e) => r == Err::<Node, DecodeError>(e),
            }),
    {
        let name = match Node::parse_name(b) {
            Ok(s) => s,
            Err(e) => { return Err(e) },
        };
        let value = match b.read_exact(32) {
            Ok(v) => v,
            Err(e) => { return Err(e) },
        };
        Ok(Node::Variable { name, value })
    }

    #[verifier::loop_isolation(false)]
    fn parse_mapping(b: &mut Cursor) -> (r: Result<Node, DecodeError>)
        requires
            old(b).inv(),
        ensures
            final(b).inv(),
            final(b).data() == old(b).data(),
            (match dec_mapping(old(b).data(), old(b).at()) {
                Ok((v, p)) => r matches Ok(n) && n@ == v && final(b).at() == p && old(b).at() < p,
                Err(e) => r == Err::<Node, DecodeError>(e),
            }),
        decreases old(b).data().len() - old(b).at(), 2int,
    {
        let ghost data = old(b).data();
        let name = match Node::parse_name(b) {
            Ok(s) => s,
            Err(e) => { return Err(e) },
        };
        let cnt = match b.read_u64_le() {
            Ok(v) => v,
            Err(e) => { return Err(e) },
        };
        let ghost p2 = b.at();
        let mut entries: Vec<Node> = Vec::new();
        let mut i: u64 = 0;
        while i < cnt
            invariant
                b.inv(),
                b.data() == data,
                0 <= i <= cnt,
                p2 <= b.at(),
                (dec_entries(data, p2, cnt as int) == match dec_entries(data, b.at(), cnt - i) {
                    Ok((rest, p)) => Ok::<_, DecodeError>((views_of(entries@) + rest, p)),
                    Err(e) => Err::<(Seq<crate::node::NodeView>, int), DecodeError>(e),
                }),
            decreases cnt - i,
        {
            let ghost acc = entries@;
            let e = match Node::parse_entry(b) {
                Ok(e) => e,
                Err(er) => { return Err(er) },
            };
            entries.push(e);
            i = i + 1;
            proof {
                lemma_views_of_push(acc, e);
                assert(views_of(acc).push(e@) =~= views_of(acc) + seq![e@]);
                assert forall|rest: Seq<crate::node::NodeView>|
                    true implies views_of(acc) + (seq![e@] + rest) =~= views_of(acc.push(e))
                    + rest by {}
            }
        }
        proof {
            assert(views_of(entries@) + Seq::<crate::node::NodeView>::empty() =~= views_of(
                entries@,
            ));
        }
        Ok(Node::Mapping { name, entries })
    }

    fn parse_entry(b: &mut Cursor) -> (r: Result<Node, DecodeError>)
        requires
            old(b).inv(),
        ensures
            final(b).inv(),
            final(b).data() == old(b).data(),
            (match dec_entry(old(b).data(), old(b).at()) {
                Ok((v, p)) => r matches Ok(n) && n@ == v && final(b).at() == p && old(b).at() < p,
                Err(e) => r == Err::<Node, DecodeError>(e),
            }),
        decreases old(b).data().len() - old(b).at(), 0int,
    {
        let key = match b.read_exact(32) {
            Ok(v) => v,
            Err(e) => { return Err(e) },
        };
        let slot = match Node::parse_slot(b) {
            Ok(v) => v,
            Err(e) => { return Err(e) },
        };
        Ok(Node::Entry { key, entry: Box::new(slot) })
    }

    /// Parse a length-prefixed UTF-8 name.
    fn parse_name(b: &mut Cursor) -> (r: Result<String, DecodeError>)
        requires
            old(b).inv(),
        ensures
            final(b).inv(),
            final(b).data() == old(b).data(),
            (match dec_name(old(b).data(), old(b).at()) {
                Ok((cs, p)) => r matches Ok(s) && s@ == cs && final(b).at() == p && old(b).at() < p,
                Err(e) => r == Err::<String, DecodeError>(e),
            }),
    {
        let n = match b.read_u64_le() {
            Ok(v) => v,
            Err(e) => { return Err(e) },
        };
        let name_start = b.position();
        let bytes = match b.read_exact(n) {
            Ok(v) => v,
            Err(e) => { return Err(e) },
        };
        match utf8_to_text(&bytes) {
            Some(s) => Ok(s),
            None => Err(DecodeError::InvalidEncoding { offset: name_start, found: None }),
        }
    }
}

/// Serialize every node of the vector in order onto the end of `out`.
fn serialize_all(nodes: &Vec<Node>, out: &mut Vec<u8>)
    requires
        struct_free_seq(views_of(nodes@)),
    ensures
        final(out)@ == old(out)@ + enc_seq(views_of(nodes@)),
    decreases *nodes,
{
    proof {
        lemma_views_of(nodes@);
    }
    let ghost vs = views_of(nodes@);
    let mut i: usize = 0;
    while i < nodes.len()
        invariant
            0 <= i <= nodes@.len(),
            vs == views_of(nodes@),
            vs.len() == nodes@.len(),
            forall|j: int| 0 <= j < nodes@.len() ==> vs[j] == node_view(nodes@[j]),
            struct_free_seq(vs),
            out@ == old(out)@ + enc_seq(vs.subrange(0, i as int)),
        decreases nodes@.len() - i,
    {
        proof {
            assert(struct_free(vs[i as int]));
            assert(vs.subrange(0, i + 1) =~= vs.subrange(0, i as int).push(vs[i as int]));
            lemma_enc_seq_push(vs.subrange(0, i as int), vs[i as int]);
        }
        nodes[i].serialize(out);
        i = i + 1;
    }
    proof {
        assert(vs.subrange(0, vs.len() as int) =~= vs);
    }
}

} // verus!
