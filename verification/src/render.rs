//! The pretty-printer: an indented, human-readable dump of a tree, for
//! diagnostics only.
//!
//! Indentation grows by two spaces per nesting level, except when descending
//! from an entry into its wrapped slot, where it grows by one — a quirk that
//! is part of the dump format. Binary fields (address, value,
//! key) are shown as text where they are valid UTF-8; otherwise every byte is
//! shown as a question mark rather than aborting, so rendering never fails on
//! a tree the hasher accepts.
use crate::codec::utf8_to_text;
use crate::node::{lemma_views_of, node_view, struct_free, struct_free_seq, views_of, Node,
    NodeView};
use vstd::prelude::*;
use vstd::string::StringExecFns;
use vstd::utf8::{decode_utf8, valid_utf8};

verus! {

/// The indentation depth one level further down: two more spaces (one when
/// stepping from an entry to its slot), capped only at the machine limit.
pub open spec fn bump(d: int, step: int) -> int {
    if d + step <= usize::MAX {
        d + step
    } else {
        usize::MAX as int
    }
}

/// `d` spaces.
pub open spec fn spaces(d: int) -> Seq<char> {
    if d <= 0 {
        Seq::empty()
    } else {
        Seq::new(d as nat, |i: int| ' ')
    }
}

/// One decimal digit as text.
pub open spec fn digit_str(d: u64) -> Seq<char> {
    if d == 0 {
        "0"@
    } else if d == 1 {
        "1"@
    } else if d == 2 {
        "2"@
    } else if d == 3 {
        "3"@
    } else if d == 4 {
        "4"@
    } else if d == 5 {
        "5"@
    } else if d == 6 {
        "6"@
    } else if d == 7 {
        "7"@
    } else if d == 8 {
        "8"@
    } else {
        "9"@
    }
}

/// `n` in decimal, most significant digit first.
pub open spec fn dec_chars(n: u64) -> Seq<char>
    decreases n,
{
    if n < 10 {
        digit_str(n)
    } else {
        dec_chars(n / 10) + digit_str(n % 10)
    }
}

/// Binary fields rendered as text: the decoded characters where the bytes
/// are valid UTF-8, else one question mark per byte.
pub open spec fn text_or_marks(bytes: Seq<u8>) -> Seq<char> {
    if valid_utf8(bytes) {
        decode_utf8(bytes)
    } else {
        Seq::new(bytes.len(), |i: int| '?')
    }
}

/// The rendering of one node at indentation depth `d`: its own line, then
/// its children one level deeper.
pub open spec fn render(v: NodeView, d: int) -> Seq<char>
    decreases v, 1int,
{
    spaces(d) + match v {
        NodeView::Block { number, contracts } => "Block #"@ + dec_chars(number) + "\n"@
            + render_seq(contracts, bump(d, 2)),
        NodeView::Contract { address, storage } => "Contract@"@ + text_or_marks(address) + "\n"@
            + render_seq(storage, bump(d, 2)),
        NodeView::Variable { name, value } => name + " -> "@ + text_or_marks(value) + "\n"@,
        NodeView::Struct { name, fields } => name + "\n"@ + render_seq(fields, bump(d, 2)),
        NodeView::Mapping { name, entries } => name + " :=\n"@ + render_seq(entries, bump(d, 2)),
        NodeView::Entry { key, entry } => text_or_marks(key) + " := \n"@ + render(
            *entry,
            bump(d, 1),
        ),
    }
}

/// The renderings of a sequence of nodes, in order, all at depth `d`.
pub open spec fn render_seq(s: Seq<NodeView>, d: int) -> Seq<char>
    decreases s, 0int,
{
    if s.len() == 0 {
        Seq::empty()
    } else {
        render(s[0], d) + render_seq(s.subrange(1, s.len() as int), d)
    }
}

/// Appending one node to a sequence extends the rendering on the right.
proof fn lemma_render_seq_push(s: Seq<NodeView>, x: NodeView, d: int)
    ensures
        render_seq(s.push(x), d) == render_seq(s, d) + render(x, d),
    decreases s.len(),
{
    let t = s.push(x);
    if s.len() == 0 {
        assert(t.subrange(1, t.len() as int) =~= Seq::<NodeView>::empty());
        assert(render_seq(Seq::<NodeView>::empty(), d) == Seq::<char>::empty());
        assert(t[0] == x);
        assert(render_seq(t, d) =~= render_seq(s, d) + render(x, d));
    } else {
        assert(t.subrange(1, t.len() as int) =~= s.subrange(1, s.len() as int).push(x));
        lemma_render_seq_push(s.subrange(1, s.len() as int), x, d);
        assert(render_seq(t, d) =~= render_seq(s, d) + render(x, d));
    }
}

/// Append `d` spaces.
fn append_spaces(r: &mut String, d: usize)
    ensures
        final(r)@ == old(r)@ + spaces(d as int),
{
    proof {
        reveal_strlit(" ");
    }
    let mut i: usize = 0;
    while i < d
        invariant
            0 <= i <= d,
            r@ == old(r)@ + spaces(i as int),
            " "@ =~= seq![' '],
        decreases d - i,
    {
        r.append(" ");
        proof {
            assert(r@ =~= old(r)@ + spaces(i + 1));
        }
        i = i + 1;
    }
}

/// Append one decimal digit.
fn append_digit(r: &mut String, d: u64)
    requires
        d < 10,
    ensures
        final(r)@ == old(r)@ + digit_str(d),
{
    if d == 0 {
        r.append("0");
    } else if d == 1 {
        r.append("1");
    } else if d == 2 {
        r.append("2");
    } else if d == 3 {
        r.append("3");
    } else if d == 4 {
        r.append("4");
    } else if d == 5 {
        r.append("5");
    } else if d == 6 {
        r.append("6");
    } else if d == 7 {
        r.append("7");
    } else if d == 8 {
        r.append("8");
    } else {
        r.append("9");
    }
}

/// Append `n` in decimal.
fn append_dec(r: &mut String, n: u64)
    ensures
        final(r)@ == old(r)@ + dec_chars(n),
    decreases n,
{
    if n < 10 {
        append_digit(r, n);
    } else {
        append_dec(r, n / 10);
        append_digit(r, n % 10);
        proof {
            assert(r@ =~= old(r)@ + dec_chars(n));
        }
    }
}

/// Append a binary field as text, or one question mark per byte where it is
/// not valid UTF-8.
fn append_text_or_marks(r: &mut String, bytes: &Vec<u8>)
    ensures
        final(r)@ == old(r)@ + text_or_marks(bytes@),
{
    match utf8_to_text(bytes) {
        Some(s) => {
            r.append(s.as_str());
        },
        None => {
            proof {
                reveal_strlit("?");
            }
            let mut i: usize = 0;
            while i < bytes.len()
                invariant
                    0 <= i <= bytes@.len(),
                    !valid_utf8(bytes@),
                    r@ == old(r)@ + Seq::new(i as nat, |k: int| '?'),
                    "?"@ =~= seq!['?'],
                decreases bytes@.len() - i,
            {
                r.append("?");
                proof {
                    assert(r@ =~= old(r)@ + Seq::new((i + 1) as nat, |k: int| '?'));
                }
                i = i + 1;
            }
            proof {
                assert(Seq::new(bytes@.len(), |k: int| '?') =~= text_or_marks(bytes@));
            }
        },
    }
}

impl Node {
    /// Render this tree as indented text. The tree must be free of struct
    /// slots: rendering one is undefined, as its decoding is.
    pub fn pretty(&self) -> (r: String)
        requires
            struct_free(self@),
        ensures
            r@ == render(self@, 0),
    {
        let mut r = String::new();
        self._pretty(0, &mut r);
        r
    }

    /// Append this node's rendering at depth `depth`.
    #[verifier::rlimit(60)]
    fn _pretty(&self, depth: usize, r: &mut String)
        requires
            struct_free(self@),
        ensures
            final(r)@ == old(r)@ + render(self@, depth as int),
        decreases *self,
    {
        append_spaces(r, depth);
        let deeper = if depth <= usize::MAX - 2 {
            depth + 2
        } else {
            usize::MAX
        };
        match self {
            Node::Block { number, contracts } => {
                r.append("Block #");
                append_dec(r, *number);
                r.append("\n");
                proof {
                    lemma_views_of(contracts@);
                }
                pretty_all(contracts, deeper, r);
                proof {
                    assert(r@ =~= old(r)@ + render(self@, depth as int));
                }
            },
            Node::Contract { address, storage } => {
                r.append("Contract@");
                append_text_or_marks(r, address);
                r.append("\n");
                proof {
                    lemma_views_of(storage@);
                }
                pretty_all(storage, deeper, r);
                proof {
                    assert(r@ =~= old(r)@ + render(self@, depth as int));
                }
            },
            Node::Variable { name, value } => {
                r.append(name.as_str());
                r.append(" -> ");
                append_text_or_marks(r, value);
                r.append("\n");
                proof {
                    assert(r@ =~= old(r)@ + render(self@, depth as int));
                }
            },
            Node::Struct { .. } => {
                proof {
                    assert(false);
                }
            },
            Node::Mapping { name, entries } => {
                r.append(name.as_str());
                r.append(" :=\n");
                proof {
                    lemma_views_of(entries@);
                }
                pretty_all(entries, deeper, r);
                proof {
                    assert(r@ =~= old(r)@ + render(self@, depth as int));
                }
            },
            Node::Entry { key, entry } => {
                append_text_or_marks(r, key);
                r.append(" := \n");
                let step = if depth <= usize::MAX - 1 {
                    depth + 1
                } else {
                    usize::MAX
                };
                entry._pretty(step, r);
                proof {
                    assert(r@ =~= old(r)@ + render(self@, depth as int));
                }
            },
        }
    }
}

/// Append the renderings of every node of the vector, in order, at depth `d`.
fn pretty_all(nodes: &Vec<Node>, d: usize, r: &mut String)
    requires
        struct_free_seq(views_of(nodes@)),
    ensures
        final(r)@ == old(r)@ + render_seq(views_of(nodes@), d as int),
    decreases *nodes,
{
    proof {
        lemma_views_of(nodes@);
    }
    let ghost vs = views_of(nodes@);
    let mut i: usize = 0;
    while i < nodes.len()
        invariant
            0 <= i <= nodes@.len(),
            vs == views_of(nodes@),
            vs.len() == nodes@.len(),
            forall|j: int| 0 <= j < nodes@.len() ==> vs[j] == node_view(nodes@[j]),
            struct_free_seq(vs),
            r@ == old(r)@ + render_seq(vs.subrange(0, i as int), d as int),
        decreases nodes@.len() - i,
    {
        proof {
            assert(struct_free(vs[i as int]));
            assert(vs.subrange(0, i + 1) =~= vs.subrange(0, i as int).push(vs[i as int]));
            lemma_render_seq_push(vs.subrange(0, i as int), vs[i as int], d as int);
        }
        nodes[i]._pretty(d, r);
        i = i + 1;
    }
    proof {
        assert(vs.subrange(0, vs.len() as int) =~= vs);
    }
}

} // verus!
