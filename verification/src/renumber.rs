//! Patterns whose groups are numbered from another number on: where such a
//! pattern matches does not depend on the numbers, as long as no
//! back-reference reads a capture.
use vstd::prelude::*;
use crate::locality::{lemma_group_member, lemma_group_witness, lemma_push_contains, lemma_repeat_tail_member, lemma_repeat_tail_witness, lemma_seq_tail_member, lemma_seq_tail_witness};
use crate::model::{Caps, Node, Outcome, close_group, node_outcomes, repeat_again, seq_outcomes};

verus! {

/// The node with `by` added to the number of each of its groups.
pub open spec fn renumbered(n: Node, by: nat) -> Node
    decreases n,
{
    match n {
        Node::Repeat(inner) => Node::Repeat(Box::new(renumbered(*inner, by))),
        Node::Optional(inner) => Node::Optional(Box::new(renumbered(*inner, by))),
        Node::Group(id, alts) => Node::Group(
            id + by,
            Seq::new(
                alts.len(),
                |j: int|
                    if 0 <= j < alts.len() {
                        renumbered_nodes(alts[j], by)
                    } else {
                        Seq::empty()
                    },
            ),
        ),
        _ => n,
    }
}

/// The nodes with `by` added to the number of each of their groups.
pub open spec fn renumbered_nodes(nodes: Seq<Node>, by: nat) -> Seq<Node>
    decreases nodes,
{
    Seq::new(
        nodes.len(),
        |i: int|
            if 0 <= i < nodes.len() {
                renumbered(nodes[i], by)
            } else {
                Node::Wildcard
            },
    )
}

/// The alternatives with `by` added to the number of each of their groups.
pub open spec fn renumbered_alts(alts: Seq<Seq<Node>>, by: nat) -> Seq<Seq<Node>> {
    Seq::new(alts.len(), |j: int| renumbered_nodes(alts[j], by))
}

/// Whether a node holds no back-reference.
pub open spec fn reads_no_capture(n: Node) -> bool
    decreases n,
{
    match n {
        Node::Repeat(inner) => reads_no_capture(*inner),
        Node::Optional(inner) => reads_no_capture(*inner),
        Node::Group(_, alts) => forall|j: int|
            0 <= j < alts.len() ==> nodes_read_no_capture(#[trigger] alts[j]),
        Node::BackRef(_) => false,
        _ => true,
    }
}

/// Whether a list of nodes holds no back-reference.
pub open spec fn nodes_read_no_capture(nodes: Seq<Node>) -> bool
    decreases nodes,
{
    forall|i: int| 0 <= i < nodes.len() ==> reads_no_capture(#[trigger] nodes[i])
}

/// A renumbered group is the group of the new number around the renumbered
/// alternatives.
pub proof fn lemma_renumbered_group(id: nat, alts: Seq<Seq<Node>>, by: nat)
    ensures
        renumbered(Node::Group(id, alts), by) == Node::Group(id + by, renumbered_alts(alts, by)),
{
    assert(renumbered(Node::Group(id, alts), by)->Group_1 =~= renumbered_alts(alts, by));
}

/// Where a renumbered node without back-references ends a match, the node
/// itself ends a match, whatever the captures.
pub proof fn lemma_node_renumbered(
    n: Node,
    by: nat,
    s: Seq<char>,
    pos: int,
    caps: Caps,
    caps2: Caps,
    o: Outcome,
) -> (o2: Outcome)
    requires
        reads_no_capture(n),
        node_outcomes(renumbered(n, by), s, pos, caps).contains(o),
    ensures
        node_outcomes(n, s, pos, caps2).contains(o2),
        o2.end == o.end,
    decreases n, s.len() - pos,
{
    let rn = renumbered(n, by);
    match n {
        Node::Optional(inner) => {
            let ri = renumbered(*inner, by);
            lemma_push_contains(node_outcomes(ri, s, pos, caps), Outcome { end: pos, caps }, o);
            if node_outcomes(ri, s, pos, caps).contains(o) {
                let o2 = lemma_node_renumbered(*inner, by, s, pos, caps, caps2, o);
                lemma_push_contains(
                    node_outcomes(*inner, s, pos, caps2),
                    Outcome { end: pos, caps: caps2 },
                    o2,
                );
                o2
            } else {
                let o2 = Outcome { end: pos, caps: caps2 };
                lemma_push_contains(node_outcomes(*inner, s, pos, caps2), o2, o2);
                o2
            }
        },
        Node::Repeat(inner) => {
            let ri = renumbered(*inner, by);
            let firsts = node_outcomes(ri, s, pos, caps);
            let i = lemma_repeat_tail_witness(firsts, rn, s, pos, o);
            let f = firsts[i];
            let f2 = lemma_node_renumbered(*inner, by, s, pos, caps, caps2, f);
            let firsts2 = node_outcomes(*inner, s, pos, caps2);
            let i2 = choose|i2: int| 0 <= i2 < firsts2.len() && firsts2[i2] == f2;
            if pos < f.end <= s.len() {
                lemma_push_contains(node_outcomes(rn, s, f.end, f.caps), f, o);
                if node_outcomes(rn, s, f.end, f.caps).contains(o) {
                    let o2 = lemma_node_renumbered(n, by, s, f.end, f.caps, f2.caps, o);
                    lemma_push_contains(node_outcomes(n, s, f2.end, f2.caps), f2, o2);
                    lemma_repeat_tail_member(firsts2, n, s, pos, i2, o2);
                    o2
                } else {
                    lemma_push_contains(node_outcomes(n, s, f2.end, f2.caps), f2, f2);
                    lemma_repeat_tail_member(firsts2, n, s, pos, i2, f2);
                    f2
                }
            } else {
                assert(seq![f][0] == f);
                assert(seq![f2][0] == f2);
                assert(repeat_again(n, s, pos, f2).contains(f2));
                lemma_repeat_tail_member(firsts2, n, s, pos, i2, f2);
                f2
            }
        },
        Node::Group(id, alts) => {
            lemma_renumbered_group(id, alts, by);
            let w = lemma_group_witness(id + by, renumbered_alts(alts, by), s, pos, caps, o);
            assert(nodes_read_no_capture(alts[w.0]));
            let inner2 = lemma_seq_renumbered(alts[w.0], by, s, pos, caps, caps2, w.1);
            lemma_group_member(id, alts, s, pos, caps2, w.0, inner2);
            close_group(inner2, id, s, pos)
        },
        Node::BackRef(id) => o,
        _ => {
            let o2 = Outcome { end: pos + 1, caps: caps2 };
            assert(seq![o2][0] == o2);
            o2
        },
    }
}

/// Where a renumbered list of nodes without back-references ends a match,
/// the list itself ends a match, whatever the captures.
pub proof fn lemma_seq_renumbered(
    nodes: Seq<Node>,
    by: nat,
    s: Seq<char>,
    pos: int,
    caps: Caps,
    caps2: Caps,
    o: Outcome,
) -> (o2: Outcome)
    requires
        nodes_read_no_capture(nodes),
        seq_outcomes(renumbered_nodes(nodes, by), s, pos, caps).contains(o),
    ensures
        seq_outcomes(nodes, s, pos, caps2).contains(o2),
        o2.end == o.end,
    decreases nodes, s.len() - pos,
{
    let rns = renumbered_nodes(nodes, by);
    if nodes.len() == 0 {
        let o2 = Outcome { end: pos, caps: caps2 };
        assert(seq![o2][0] == o2);
        o2
    } else {
        let firsts = node_outcomes(rns[0], s, pos, caps);
        let i = lemma_seq_tail_witness(firsts, rns, s, o);
        let f = firsts[i];
        assert(reads_no_capture(nodes[0]));
        let f2 = lemma_node_renumbered(nodes[0], by, s, pos, caps, caps2, f);
        let firsts2 = node_outcomes(nodes[0], s, pos, caps2);
        let i2 = choose|i2: int| 0 <= i2 < firsts2.len() && firsts2[i2] == f2;
        assert(rns.drop_first() =~= renumbered_nodes(nodes.drop_first(), by));
        assert(nodes_read_no_capture(nodes.drop_first())) by {
            assert forall|k: int| 0 <= k < nodes.drop_first().len() implies reads_no_capture(
                #[trigger] nodes.drop_first()[k],
            ) by {
                assert(nodes.drop_first()[k] == nodes[k + 1]);
            }
        }
        let o2 = lemma_seq_renumbered(nodes.drop_first(), by, s, f.end, f.caps, f2.caps, o);
        lemma_seq_tail_member(firsts2, nodes, s, i2, o2);
        o2
    }
}

} // verus!
