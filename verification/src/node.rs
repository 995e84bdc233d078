//! The tree model: a single variant-tagged node type forms a rooted tree.
//!
//! A `Block` holds an ordered sequence of `Contract`s; a `Contract` holds an
//! ordered sequence of storage slots (`Variable`, `Struct` or `Mapping`); a
//! `Mapping` holds `Entry` nodes, each wrapping exactly one slot. Order is
//! semantically significant: the canonical digest changes when siblings are
//! reordered. The tree is immutable once built.
use vstd::prelude::*;

verus! {

/// One element of the state tree.
///
/// Addresses are fixed 20-byte arrays and words (values and mapping keys)
/// fixed 32-byte arrays, both held as byte vectors whose length the
/// well-formedness predicate [`wf`] pins down; names are UTF-8 text.
#[derive(Debug, PartialEq, Eq)]
pub enum Node {
    Block { number: u64, contracts: Vec<Node> },
    Contract { address: Vec<u8>, storage: Vec<Node> },
    Variable { name: String, value: Vec<u8> },
    Struct { name: String, fields: Vec<Node> },
    Mapping { name: String, entries: Vec<Node> },
    Entry { key: Vec<u8>, entry: Box<Node> },
}

/// The mathematical shape of a [`Node`]: the same tree over `Seq` and
/// `Seq<char>`, used by every contract in the crate.
pub enum NodeView {
    Block { number: u64, contracts: Seq<NodeView> },
    Contract { address: Seq<u8>, storage: Seq<NodeView> },
    Variable { name: Seq<char>, value: Seq<u8> },
    Struct { name: Seq<char>, fields: Seq<NodeView> },
    Mapping { name: Seq<char>, entries: Seq<NodeView> },
    Entry { key: Seq<u8>, entry: Box<NodeView> },
}

/// The view of a node: the same tree, with every vector of children turned
/// into a sequence of views.
pub open spec fn node_view(n: Node) -> NodeView
    decreases n,
{
    match n {
        Node::Block { number, contracts } => NodeView::Block {
            number,
            contracts: views_of(contracts@),
        },
        Node::Contract { address, storage } => NodeView::Contract {
            address: address@,
            storage: views_of(storage@),
        },
        Node::Variable { name, value } => NodeView::Variable { name: name@, value: value@ },
        Node::Struct { name, fields } => NodeView::Struct { name: name@, fields: views_of(fields@) },
        Node::Mapping { name, entries } => NodeView::Mapping {
            name: name@,
            entries: views_of(entries@),
        },
        Node::Entry { key, entry } => NodeView::Entry {
            key: key@,
            entry: Box::new(node_view(*entry)),
        },
    }
}

/// The views of a sequence of nodes, in order.
pub open spec fn views_of(s: Seq<Node>) -> Seq<NodeView>
    decreases s,
{
    if s.len() == 0 {
        Seq::empty()
    } else {
        seq![node_view(s[0])] + views_of(s.subrange(1, s.len() as int))
    }
}

impl View for Node {
    type V = NodeView;

    open spec fn view(&self) -> NodeView {
        node_view(*self)
    }
}

/// `views_of` maps `node_view` over the sequence, element by element.
pub proof fn lemma_views_of(s: Seq<Node>)
    ensures
        views_of(s).len() == s.len(),
        forall|i: int| 0 <= i < s.len() ==> views_of(s)[i] == node_view(s[i]),
    decreases s.len(),
{
    if s.len() > 0 {
        lemma_views_of(s.subrange(1, s.len() as int));
    }
}

/// Appending one node appends its view.
pub proof fn lemma_views_of_push(s: Seq<Node>, x: Node)
    ensures
        views_of(s.push(x)) == views_of(s).push(node_view(x)),
    decreases s.len(),
{
    let t = s.push(x);
    if s.len() == 0 {
        assert(t.subrange(1, t.len() as int) =~= Seq::<Node>::empty());
        assert(views_of(Seq::<Node>::empty()) == Seq::<NodeView>::empty());
        assert(t[0] == x);
        assert(views_of(t) =~= views_of(s).push(node_view(x)));
    } else {
        assert(t.subrange(1, t.len() as int) =~= s.subrange(1, s.len() as int).push(x));
        lemma_views_of_push(s.subrange(1, s.len() as int), x);
        assert(views_of(t) =~= views_of(s).push(node_view(x)));
    }
}

/// A slot: what a contract's storage may hold.
pub open spec fn is_slot(v: NodeView) -> bool {
    v is Variable || v is Struct || v is Mapping
}

/// Well-formedness: every child sits under the right parent, and every
/// fixed-size field and count has the size the wire format carries.
pub open spec fn wf(v: NodeView) -> bool
    decreases v,
{
    match v {
        NodeView::Block { number: _, contracts } => contracts.len() <= u64::MAX
            && forall|i: int|
                0 <= i < contracts.len() ==> (#[trigger] contracts[i]) is Contract && wf(
                    contracts[i],
                ),
        NodeView::Contract { address, storage } => address.len() == 20 && storage.len() <= u64::MAX
            && forall|i: int|
                0 <= i < storage.len() ==> is_slot(#[trigger] storage[i]) && wf(storage[i]),
        NodeView::Variable { name, value } => value.len() == 32 && vstd::utf8::encode_utf8(
            name,
        ).len() <= u64::MAX,
        NodeView::Struct { name, fields } => vstd::utf8::encode_utf8(name).len() <= u64::MAX
            && fields.len() <= u64::MAX && forall|i: int|
                0 <= i < fields.len() ==> is_slot(#[trigger] fields[i]) && wf(fields[i]),
        NodeView::Mapping { name, entries } => vstd::utf8::encode_utf8(name).len() <= u64::MAX
            && entries.len() <= u64::MAX && forall|i: int|
                0 <= i < entries.len() ==> (#[trigger] entries[i]) is Entry && wf(entries[i]),
        NodeView::Entry { key, entry } => key.len() == 32 && is_slot(*entry) && wf(*entry),
    }
}

/// No struct slot anywhere in the tree: the struct variant has no defined
/// field encoding, so only struct-free trees can be serialized.
pub open spec fn struct_free(v: NodeView) -> bool
    decreases v, 1int,
{
    match v {
        NodeView::Block { number: _, contracts } => struct_free_seq(contracts),
        NodeView::Contract { address: _, storage } => struct_free_seq(storage),
        NodeView::Variable { .. } => true,
        NodeView::Struct { .. } => false,
        NodeView::Mapping { name: _, entries } => struct_free_seq(entries),
        NodeView::Entry { key: _, entry } => struct_free(*entry),
    }
}

/// No struct slot anywhere under any node of the sequence.
pub open spec fn struct_free_seq(s: Seq<NodeView>) -> bool
    decreases s, 0int,
{
    forall|i: int| 0 <= i < s.len() ==> struct_free(#[trigger] s[i])
}

impl Node {
    /// The wire tag of a slot node: 1 for a variable, 2 for a struct, 3 for a
    /// mapping. Only slots carry a tag; other variants have none.
    pub(crate) fn to_id(&self) -> (r: u8)
        requires
            is_slot(self@),
        ensures
            r == spec_tag(self@),
    {
        match self {
            Node::Variable { .. } => 1,
            Node::Struct { .. } => 2,
            Node::Mapping { .. } => 3,
            _ => 1,  // unreachable: a slot is one of the three variants above
        }
    }

    /// Whether no struct slot occurs anywhere in this tree; only then can the
    /// tree be serialized, so unverified callers check this first.
    pub fn is_struct_free(&self) -> (r: bool)
        ensures
            r == struct_free(self@),
        decreases *self,
    {
        match self {
            Node::Block { contracts, .. } => {
                proof {
                    lemma_views_of(contracts@);
                }
                all_struct_free(contracts)
            },
            Node::Contract { storage, .. } => {
                proof {
                    lemma_views_of(storage@);
                }
                all_struct_free(storage)
            },
            Node::Variable { .. } => true,
            Node::Struct { .. } => false,
            Node::Mapping { entries, .. } => {
                proof {
                    lemma_views_of(entries@);
                }
                all_struct_free(entries)
            },
            Node::Entry { entry, .. } => entry.is_struct_free(),
        }
    }
}

/// Whether every node of the vector is struct-free.
fn all_struct_free(s: &Vec<Node>) -> (r: bool)
    ensures
        r == struct_free_seq(views_of(s@)),
    decreases *s,
{
    proof {
        lemma_views_of(s@);
    }
    let mut i: usize = 0;
    while i < s.len()
        invariant
            0 <= i <= s@.len(),
            views_of(s@).len() == s@.len(),
            forall|j: int| 0 <= j < s@.len() ==> views_of(s@)[j] == node_view(s@[j]),
            forall|j: int| 0 <= j < i ==> struct_free(#[trigger] views_of(s@)[j]),
        decreases s@.len() - i,
    {
        if !s[i].is_struct_free() {
            proof {
                assert(!struct_free(views_of(s@)[i as int]));
            }
            return false;
        }
        i = i + 1;
    }
    proof {
        assert forall|j: int| 0 <= j < views_of(s@).len() implies struct_free(
            #[trigger] views_of(s@)[j],
        ) by {}
    }
    true
}

/// The tag of a slot view, as [`Node::to_id`] returns it.
pub open spec fn spec_tag(v: NodeView) -> u8 {
    match v {
        NodeView::Variable { .. } => 1,
        NodeView::Struct { .. } => 2,
        NodeView::Mapping { .. } => 3,
        _ => 0,
    }
}

} // verus!
