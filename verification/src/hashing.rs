//! The canonical hasher: a single 64-byte digest deterministically derived
//! from a tree by feeding raw field bytes to a wide cryptographic hash in a
//! fixed pre-order traversal.
//!
//! The block number is fed in its big-endian form — deliberately asymmetric
//! with the little-endian wire encoding; the asymmetry is part of the digest
//! definition, not a defect to straighten out, since changing it would change
//! every digest. Fixed-size binary fields (address, value, key) are fed as
//! raw bytes, with no length framing and no node-type discriminant. Two
//! structurally different trees whose traversals emit the same raw bytes are
//! therefore not guaranteed distinct digests: a known weakness of the format,
//! documented rather than silently strengthened.
use crate::codec::push_all;
use crate::node::{lemma_views_of, node_view, views_of, Node, NodeView};
use vstd::prelude::*;
use vstd::string::StrSliceExecFns;
use vstd::utf8::encode_utf8;

verus! {

/// The 8 bytes of `x`, most significant first.
pub open spec fn spec_u64_to_be_bytes(x: u64) -> Seq<u8> {
    seq![
        ((x >> 56) & 0xff) as u8,
        ((x >> 48) & 0xff) as u8,
        ((x >> 40) & 0xff) as u8,
        ((x >> 32) & 0xff) as u8,
        ((x >> 24) & 0xff) as u8,
        ((x >> 16) & 0xff) as u8,
        ((x >> 8) & 0xff) as u8,
        (x & 0xff) as u8,
    ]
}

/// Big-endian bytes of `x`, as a vector.
fn u64_to_be_vec(x: u64) -> (r: Vec<u8>)
    ensures
        r@ == spec_u64_to_be_bytes(x),
{
    let mut r: Vec<u8> = Vec::new();
    r.push(((x >> 56) & 0xff) as u8);
    r.push(((x >> 48) & 0xff) as u8);
    r.push(((x >> 40) & 0xff) as u8);
    r.push(((x >> 32) & 0xff) as u8);
    r.push(((x >> 24) & 0xff) as u8);
    r.push(((x >> 16) & 0xff) as u8);
    r.push(((x >> 8) & 0xff) as u8);
    r.push((x & 0xff) as u8);
    proof {
        assert(r@ =~= spec_u64_to_be_bytes(x));
    }
    r
}

/// The exact byte stream the hasher consumes for one node: the node's raw
/// field bytes, then its children in order.
pub open spec fn hash_input(v: NodeView) -> Seq<u8>
    decreases v, 1int,
{
    match v {
        NodeView::Block { number, contracts } => spec_u64_to_be_bytes(number) + hash_input_seq(
            contracts,
        ),
        NodeView::Contract { address, storage } => address + hash_input_seq(storage),
        NodeView::Variable { name, value } => encode_utf8(name) + value,
        NodeView::Struct { name, fields } => encode_utf8(name) + hash_input_seq(fields),
        NodeView::Mapping { name, entries } => encode_utf8(name) + hash_input_seq(entries),
        NodeView::Entry { key, entry } => key + hash_input(*entry),
    }
}

/// The concatenated hasher streams of a sequence of nodes, in order.
pub open spec fn hash_input_seq(s: Seq<NodeView>) -> Seq<u8>
    decreases s, 0int,
{
    if s.len() == 0 {
        Seq::empty()
    } else {
        hash_input(s[0]) + hash_input_seq(s.subrange(1, s.len() as int))
    }
}

/// Appending one node to a sequence extends its hasher stream on the right.
proof fn lemma_hash_input_seq_push(s: Seq<NodeView>, x: NodeView)
    ensures
        hash_input_seq(s.push(x)) == hash_input_seq(s) + hash_input(x),
    decreases s.len(),
{
    let t = s.push(x);
    if s.len() == 0 {
        assert(t.subrange(1, t.len() as int) =~= Seq::<NodeView>::empty());
        assert(hash_input_seq(Seq::<NodeView>::empty()) == Seq::<u8>::empty());
        assert(t[0] == x);
        assert(hash_input_seq(t) =~= hash_input_seq(s) + hash_input(x));
    } else {
        assert(t.subrange(1, t.len() as int) =~= s.subrange(1, s.len() as int).push(x));
        lemma_hash_input_seq_push(s.subrange(1, s.len() as int), x);
        assert(hash_input_seq(t) =~= hash_input_seq(s) + hash_input(x));
    }
}

/// The 64-byte BLAKE2b-512 digest of a byte sequence. The digest itself is
/// left unspecified: only that it is a function of the input bytes alone, and
/// 64 bytes long, is relied on.
pub uninterp spec fn blake2b512_of(input: Seq<u8>) -> Seq<u8>;

/// Relies on `blake2::Blake2b512` through the `Digest` interface: the digest
/// depends on the fed bytes alone and is 64 bytes long.
#[verifier::external_body]
fn blake2b512(input: &Vec<u8>) -> (r: Vec<u8>)
    ensures
        r@ == blake2b512_of(input@),
        r@.len() == 64,
{
    let mut h = <blake2::Blake2b512 as blake2::Digest>::new();
    blake2::Digest::update(&mut h, input.as_slice());
    blake2::Digest::finalize(h).to_vec()
}

impl Node {
    /// The canonical digest of this tree: 64 bytes summarizing its content
    /// and the order of its children.
    pub fn hash(&self) -> (r: Vec<u8>)
        ensures
            r@ == blake2b512_of(hash_input(self@)),
            r@.len() == 64,
    {
        let mut stream: Vec<u8> = Vec::new();
        self._hash(&mut stream);
        blake2b512(&stream)
    }

    /// Append this node's hasher stream: its raw field bytes, then its
    /// children in order.
    fn _hash(&self, h: &mut Vec<u8>)
        ensures
            final(h)@ == old(h)@ + hash_input(self@),
        decreases *self,
    {
        match self {
            Node::Block { number, contracts } => {
                let nb = u64_to_be_vec(*number);
                push_all(h, &nb);
                hash_all(contracts, h);
                proof {
                    assert(h@ =~= old(h)@ + hash_input(self@));
                }
            },
            Node::Contract { address, storage } => {
                push_all(h, address);
                hash_all(storage, h);
                proof {
                    assert(h@ =~= old(h)@ + hash_input(self@));
                }
            },
            Node::Variable { name, value } => {
                let name_bytes = name.as_str().as_bytes_vec();
                push_all(h, &name_bytes);
                push_all(h, value);
                proof {
                    assert(h@ =~= old(h)@ + hash_input(self@));
                }
            },
            Node::Struct { name, fields } => {
                let name_bytes = name.as_str().as_bytes_vec();
                push_all(h, &name_bytes);
                hash_all(fields, h);
                proof {
                    assert(h@ =~= old(h)@ + hash_input(self@));
                }
            },
            Node::Mapping { name, entries } => {
                let name_bytes = name.as_str().as_bytes_vec();
                push_all(h, &name_bytes);
                hash_all(entries, h);
                proof {
                    assert(h@ =~= old(h)@ + hash_input(self@));
                }
            },
            Node::Entry { key, entry } => {
                push_all(h, key);
                entry._hash(h);
                proof {
                    assert(h@ =~= old(h)@ + hash_input(self@));
                }
            },
        }
    }
}

/// Append the hasher streams of every node of the vector, in order.
fn hash_all(nodes: &Vec<Node>, h: &mut Vec<u8>)
    ensures
        final(h)@ == old(h)@ + hash_input_seq(views_of(nodes@)),
    decreases *nodes,
{
    proof {
        lemma_views_of(nodes@);
    }
    let ghost vs = views_of(nodes@);
    let mut i: usize = 0;
    while i < nodes.len()
        invariant
            0 <= i <= nodes@.len(),
            vs == views_of(nodes@),
            vs.len() == nodes@.len(),
            forall|j: int| 0 <= j < nodes@.len() ==> vs[j] == node_view(nodes@[j]),
            h@ == old(h)@ + hash_input_seq(vs.subrange(0, i as int)),
        decreases nodes@.len() - i,
    {
        proof {
            assert(vs.subrange(0, i + 1) =~= vs.subrange(0, i as int).push(vs[i as int]));
            lemma_hash_input_seq_push(vs.subrange(0, i as int), vs[i as int]);
        }
        nodes[i]._hash(h);
        i = i + 1;
    }
    proof {
        assert(vs.subrange(0, vs.len() as int) =~= vs);
    }
}

} // verus!
