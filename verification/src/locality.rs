//! What a match depends on: the outcomes that end at or before a position
//! depend only on the subject between the start and that position.
use vstd::prelude::*;
use crate::model::{Caps, Node, Outcome, Rest, accepted, captured, close_all, close_group, group_alts, node_outcomes, occurs_at, repeat_again, repeat_tail, rest_result, seq_outcomes, seq_tail, span_text};

verus! {

/// The outcome `o` of a match on a subject that stands `d` places further on
/// in another subject.
pub open spec fn shifted(o: Outcome, d: int) -> Outcome {
    Outcome { end: o.end + d, caps: o.caps }
}

/// Whether `s` between `lo` and `hi` is `s2` between `lo + d` and `hi + d`.
pub open spec fn same_text(s: Seq<char>, s2: Seq<char>, lo: int, hi: int, d: int) -> bool {
    &&& 0 <= lo <= hi <= s.len()
    &&& 0 <= lo + d
    &&& hi + d <= s2.len()
    &&& forall|x: int| lo <= x < hi ==> s[x] == s2[x + d]
}

/// What two lists joined contain is what one of them contains.
pub proof fn lemma_concat_contains(a: Seq<Outcome>, b: Seq<Outcome>, x: Outcome)
    ensures
        (a + b).contains(x) <==> a.contains(x) || b.contains(x),
{
    if a.contains(x) {
        let i = choose|i: int| 0 <= i < a.len() && a[i] == x;
        assert((a + b)[i] == x);
    }
    if b.contains(x) {
        let i = choose|i: int| 0 <= i < b.len() && b[i] == x;
        assert((a + b)[a.len() + i] == x);
    }
    if (a + b).contains(x) {
        let i = choose|i: int| 0 <= i < (a + b).len() && (a + b)[i] == x;
        if i < a.len() {
            assert(a[i] == x);
        } else {
            assert(b[i - a.len()] == x);
        }
    }
}

/// What a list with one more outcome contains is what the list contains, and
/// that outcome.
pub proof fn lemma_push_contains(a: Seq<Outcome>, o: Outcome, x: Outcome)
    ensures
        a.push(o).contains(x) <==> a.contains(x) || x == o,
{
    assert(a.push(o) =~= a + seq![o]);
    lemma_concat_contains(a, seq![o], x);
    assert(seq![o][0] == o);
}

/// An outcome of a sequence comes from some outcome of its first node.
pub proof fn lemma_seq_tail_witness(firsts: Seq<Outcome>, nodes: Seq<Node>, s: Seq<char>, x: Outcome) -> (i:
    int)
    requires
        seq_tail(firsts, nodes, s).contains(x),
    ensures
        nodes.len() > 0,
        0 <= i < firsts.len(),
        seq_outcomes(nodes.drop_first(), s, firsts[i].end, firsts[i].caps).contains(x),
    decreases firsts.len(),
{
    if firsts.len() == 0 || nodes.len() == 0 {
        assert(seq_tail(firsts, nodes, s) =~= Seq::empty());
        0
    } else {
        let a = seq_outcomes(nodes.drop_first(), s, firsts[0].end, firsts[0].caps);
        let b = seq_tail(firsts.drop_first(), nodes, s);
        lemma_concat_contains(a, b, x);
        if a.contains(x) {
            0
        } else {
            lemma_seq_tail_witness(firsts.drop_first(), nodes, s, x) + 1
        }
    }
}

/// What follows from an outcome of the first node is an outcome of the
/// sequence.
pub proof fn lemma_seq_tail_member(firsts: Seq<Outcome>, nodes: Seq<Node>, s: Seq<char>, i: int, x: Outcome)
    requires
        nodes.len() > 0,
        0 <= i < firsts.len(),
        seq_outcomes(nodes.drop_first(), s, firsts[i].end, firsts[i].caps).contains(x),
    ensures
        seq_tail(firsts, nodes, s).contains(x),
    decreases firsts.len(),
{
    let a = seq_outcomes(nodes.drop_first(), s, firsts[0].end, firsts[0].caps);
    let b = seq_tail(firsts.drop_first(), nodes, s);
    lemma_concat_contains(a, b, x);
    if i > 0 {
        lemma_seq_tail_member(firsts.drop_first(), nodes, s, i - 1, x);
    }
}

/// An outcome of a repetition comes from some outcome of its first round.
pub proof fn lemma_repeat_tail_witness(
    firsts: Seq<Outcome>,
    rep: Node,
    s: Seq<char>,
    since: int,
    x: Outcome,
) -> (i: int)
    requires
        repeat_tail(firsts, rep, s, since).contains(x),
    ensures
        0 <= i < firsts.len(),
        repeat_again(rep, s, since, firsts[i]).contains(x),
    decreases firsts.len(),
{
    if firsts.len() == 0 {
        assert(repeat_tail(firsts, rep, s, since) =~= Seq::empty());
        0
    } else {
        let a = repeat_again(rep, s, since, firsts[0]);
        let b = repeat_tail(firsts.drop_first(), rep, s, since);
        lemma_concat_contains(a, b, x);
        if a.contains(x) {
            0
        } else {
            lemma_repeat_tail_witness(firsts.drop_first(), rep, s, since, x) + 1
        }
    }
}

/// What follows from an outcome of the first round is an outcome of the
/// repetition.
pub proof fn lemma_repeat_tail_member(
    firsts: Seq<Outcome>,
    rep: Node,
    s: Seq<char>,
    since: int,
    i: int,
    x: Outcome,
)
    requires
        0 <= i < firsts.len(),
        repeat_again(rep, s, since, firsts[i]).contains(x),
    ensures
        repeat_tail(firsts, rep, s, since).contains(x),
    decreases firsts.len(),
{
    let a = repeat_again(rep, s, since, firsts[0]);
    let b = repeat_tail(firsts.drop_first(), rep, s, since);
    lemma_concat_contains(a, b, x);
    if i > 0 {
        lemma_repeat_tail_member(firsts.drop_first(), rep, s, since, i - 1, x);
    }
}

/// An outcome of a group comes from an outcome of one of its alternatives.
pub proof fn lemma_group_witness(
    id: nat,
    alts: Seq<Seq<Node>>,
    s: Seq<char>,
    pos: int,
    caps: Caps,
    x: Outcome,
) -> (w: (int, Outcome))
    requires
        group_alts(id, alts, s, pos, caps).contains(x),
    ensures
        0 <= w.0 < alts.len(),
        seq_outcomes(alts[w.0], s, pos, caps).contains(w.1),
        x == close_group(w.1, id, s, pos),
    decreases alts.len(),
{
    if alts.len() == 0 {
        assert(group_alts(id, alts, s, pos, caps) =~= Seq::empty());
        (0, x)
    } else {
        let os = seq_outcomes(alts[0], s, pos, caps);
        let a = close_all(os, id, s, pos);
        let b = group_alts(id, alts.drop_first(), s, pos, caps);
        lemma_concat_contains(a, b, x);
        if a.contains(x) {
            let i = choose|i: int| 0 <= i < a.len() && a[i] == x;
            assert(os[i] == os[i]);
            (0, os[i])
        } else {
            let w = lemma_group_witness(id, alts.drop_first(), s, pos, caps, x);
            (w.0 + 1, w.1)
        }
    }
}

/// An outcome of an alternative, with the group closed, is an outcome of the
/// group.
pub proof fn lemma_group_member(
    id: nat,
    alts: Seq<Seq<Node>>,
    s: Seq<char>,
    pos: int,
    caps: Caps,
    j: int,
    o: Outcome,
)
    requires
        0 <= j < alts.len(),
        seq_outcomes(alts[j], s, pos, caps).contains(o),
    ensures
        group_alts(id, alts, s, pos, caps).contains(close_group(o, id, s, pos)),
    decreases alts.len(),
{
    let os = seq_outcomes(alts[0], s, pos, caps);
    let a = close_all(os, id, s, pos);
    let b = group_alts(id, alts.drop_first(), s, pos, caps);
    lemma_concat_contains(a, b, close_group(o, id, s, pos));
    if j == 0 {
        let i = choose|i: int| 0 <= i < os.len() && os[i] == o;
        assert(a[i] == close_group(o, id, s, pos));
    } else {
        lemma_group_member(id, alts.drop_first(), s, pos, caps, j - 1, o);
    }
}

/// A node matches forward and inside the subject.
pub proof fn lemma_node_bounds(n: Node, s: Seq<char>, pos: int, caps: Caps, o: Outcome)
    requires
        0 <= pos <= s.len(),
        node_outcomes(n, s, pos, caps).contains(o),
    ensures
        pos <= o.end <= s.len(),
    decreases n, s.len() - pos,
{
    match n {
        Node::Optional(inner) => {
            lemma_push_contains(node_outcomes(*inner, s, pos, caps), Outcome { end: pos, caps }, o);
            if node_outcomes(*inner, s, pos, caps).contains(o) {
                lemma_node_bounds(*inner, s, pos, caps, o);
            }
        },
        Node::Repeat(inner) => {
            let firsts = node_outcomes(*inner, s, pos, caps);
            let i = lemma_repeat_tail_witness(firsts, n, s, pos, o);
            let f = firsts[i];
            lemma_node_bounds(*inner, s, pos, caps, f);
            if pos < f.end <= s.len() {
                lemma_push_contains(node_outcomes(n, s, f.end, f.caps), f, o);
                if o != f {
                    lemma_node_bounds(n, s, f.end, f.caps, o);
                }
            } else {
                assert(seq![f][0] == f);
            }
        },
        Node::Group(id, alts) => {
            let w = lemma_group_witness(id, alts, s, pos, caps, o);
            lemma_seq_bounds(alts[w.0], s, pos, caps, w.1);
        },
        Node::BackRef(id) => {},
        _ => {},
    }
}

/// A sequence of nodes matches forward and inside the subject.
pub proof fn lemma_seq_bounds(nodes: Seq<Node>, s: Seq<char>, pos: int, caps: Caps, o: Outcome)
    requires
        0 <= pos <= s.len(),
        seq_outcomes(nodes, s, pos, caps).contains(o),
    ensures
        pos <= o.end <= s.len(),
    decreases nodes, s.len() - pos,
{
    if nodes.len() > 0 {
        let firsts = node_outcomes(nodes[0], s, pos, caps);
        let i = lemma_seq_tail_witness(firsts, nodes, s, o);
        lemma_node_bounds(nodes[0], s, pos, caps, firsts[i]);
        lemma_seq_bounds(nodes.drop_first(), s, firsts[i].end, firsts[i].caps, o);
    }
}

/// A match of a node that ends at or before `hi` is a match wherever the
/// subject between `pos` and `hi` stands: the same text, `d` places further on
/// in `s2`, is matched in the same way with the same captures.
pub proof fn lemma_node_moves(
    n: Node,
    s: Seq<char>,
    s2: Seq<char>,
    pos: int,
    hi: int,
    d: int,
    caps: Caps,
    o: Outcome,
)
    requires
        same_text(s, s2, pos, hi, d),
        node_outcomes(n, s, pos, caps).contains(o),
        o.end <= hi,
    ensures
        node_outcomes(n, s2, pos + d, caps).contains(shifted(o, d)),
    decreases n, hi - pos,
{
    match n {
        Node::Optional(inner) => {
            let here = Outcome { end: pos, caps };
            lemma_push_contains(node_outcomes(*inner, s, pos, caps), here, o);
            lemma_push_contains(
                node_outcomes(*inner, s2, pos + d, caps),
                Outcome { end: pos + d, caps },
                shifted(o, d),
            );
            if node_outcomes(*inner, s, pos, caps).contains(o) {
                lemma_node_moves(*inner, s, s2, pos, hi, d, caps, o);
            }
        },
        Node::Repeat(inner) => {
            let firsts = node_outcomes(*inner, s, pos, caps);
            let i = lemma_repeat_tail_witness(firsts, n, s, pos, o);
            let f = firsts[i];
            lemma_node_bounds(*inner, s, pos, caps, f);
            if pos < f.end <= s.len() {
                lemma_push_contains(node_outcomes(n, s, f.end, f.caps), f, o);
                if o != f {
                    lemma_node_bounds(n, s, f.end, f.caps, o);
                }
            } else {
                assert(seq![f][0] == f);
            }
            assert(f.end <= hi);
            lemma_node_moves(*inner, s, s2, pos, hi, d, caps, f);
            let firsts2 = node_outcomes(*inner, s2, pos + d, caps);
            let f2 = shifted(f, d);
            let i2 = choose|i2: int| 0 <= i2 < firsts2.len() && firsts2[i2] == f2;
            if pos < f.end <= s.len() {
                lemma_push_contains(node_outcomes(n, s2, f2.end, f2.caps), f2, shifted(o, d));
                if o != f {
                    lemma_node_moves(n, s, s2, f.end, hi, d, f.caps, o);
                }
            } else {
                assert(f.end == pos);
                assert(seq![f2][0] == f2);
            }
            assert(repeat_again(n, s2, pos + d, f2).contains(shifted(o, d)));
            lemma_repeat_tail_member(firsts2, n, s2, pos + d, i2, shifted(o, d));
        },
        Node::Group(id, alts) => {
            let w = lemma_group_witness(id, alts, s, pos, caps, o);
            lemma_seq_bounds(alts[w.0], s, pos, caps, w.1);
            lemma_seq_moves(alts[w.0], s, s2, pos, hi, d, caps, w.1);
            lemma_group_member(id, alts, s2, pos + d, caps, w.0, shifted(w.1, d));
            assert(span_text(s2, pos + d, w.1.end + d) =~= span_text(s, pos, w.1.end));
            assert(close_group(shifted(w.1, d), id, s2, pos + d) == shifted(o, d));
        },
        Node::BackRef(id) => {
            let text = captured(caps, id)->0;
            assert(s2.subrange(pos + d, pos + d + text.len()) =~= s.subrange(pos, pos + text.len()));
            assert(occurs_at(s2, pos + d, text));
            assert(seq![shifted(o, d)][0] == shifted(o, d));
        },
        _ => {
            assert(s2[pos + d] == s[pos]);
            assert(seq![shifted(o, d)][0] == shifted(o, d));
        },
    }
}

/// A match of a sequence of nodes that ends at or before `hi` is a match
/// wherever the subject between `pos` and `hi` stands.
pub proof fn lemma_seq_moves(
    nodes: Seq<Node>,
    s: Seq<char>,
    s2: Seq<char>,
    pos: int,
    hi: int,
    d: int,
    caps: Caps,
    o: Outcome,
)
    requires
        same_text(s, s2, pos, hi, d),
        seq_outcomes(nodes, s, pos, caps).contains(o),
        o.end <= hi,
    ensures
        seq_outcomes(nodes, s2, pos + d, caps).contains(shifted(o, d)),
    decreases nodes, hi - pos,
{
    if nodes.len() == 0 {
        assert(seq![Outcome { end: pos + d, caps }][0] == shifted(o, d));
    } else {
        let firsts = node_outcomes(nodes[0], s, pos, caps);
        let i = lemma_seq_tail_witness(firsts, nodes, s, o);
        let f = firsts[i];
        lemma_node_bounds(nodes[0], s, pos, caps, f);
        lemma_seq_bounds(nodes.drop_first(), s, f.end, f.caps, o);
        lemma_node_moves(nodes[0], s, s2, pos, hi, d, caps, f);
        let firsts2 = node_outcomes(nodes[0], s2, pos + d, caps);
        let f2 = shifted(f, d);
        let i2 = choose|i2: int| 0 <= i2 < firsts2.len() && firsts2[i2] == f2;
        lemma_seq_moves(nodes.drop_first(), s, s2, f.end, hi, d, f.caps, o);
        lemma_seq_tail_member(firsts2, nodes, s2, i2, shifted(o, d));
    }
}

/// With nothing left to match, an outcome is accepted if the match may end
/// where it ends. The first such outcome is the accepted one.
pub proof fn lemma_accept_witness(os: Seq<Outcome>, at_end: bool, s: Seq<char>) -> (i: int)
    requires
        accepted(os, Rest::Accept(at_end), s) is Some,
    ensures
        0 <= i < os.len(),
        at_end ==> os[i].end == s.len(),
        accepted(os, Rest::Accept(at_end), s) == Some(os[i]),
    decreases os.len(),
{
    assert(os.len() > 0);
    let first = rest_result(Rest::Accept(at_end), s, os[0].end, os[0].caps);
    assert(first == if at_end ==> os[0].end == s.len() {
        Some(os[0])
    } else {
        None
    });
    if at_end ==> os[0].end == s.len() {
        0
    } else {
        lemma_accept_witness(os.drop_first(), at_end, s) + 1
    }
}

/// With nothing left to match, there is a match as soon as some outcome ends
/// where the match may end.
pub proof fn lemma_accept_member(os: Seq<Outcome>, at_end: bool, s: Seq<char>, o: Outcome)
    requires
        os.contains(o),
        at_end ==> o.end == s.len(),
    ensures
        accepted(os, Rest::Accept(at_end), s) is Some,
    decreases os.len(),
{
    let i = choose|i: int| 0 <= i < os.len() && os[i] == o;
    let first = rest_result(Rest::Accept(at_end), s, os[0].end, os[0].caps);
    assert(first == if at_end ==> os[0].end == s.len() {
        Some(os[0])
    } else {
        None
    });
    if i > 0 {
        if !(at_end ==> os[0].end == s.len()) {
            assert(os.drop_first()[i - 1] == o);
            lemma_accept_member(os.drop_first(), at_end, s, o);
        }
    }
}

/// A node keeps the number of captures.
pub proof fn lemma_node_keeps_len(n: Node, s: Seq<char>, pos: int, caps: Caps, o: Outcome)
    requires
        node_outcomes(n, s, pos, caps).contains(o),
    ensures
        o.caps.len() == caps.len(),
    decreases n, s.len() - pos,
{
    match n {
        Node::Optional(inner) => {
            lemma_push_contains(node_outcomes(*inner, s, pos, caps), Outcome { end: pos, caps }, o);
            if node_outcomes(*inner, s, pos, caps).contains(o) {
                lemma_node_keeps_len(*inner, s, pos, caps, o);
            }
        },
        Node::Repeat(inner) => {
            let firsts = node_outcomes(*inner, s, pos, caps);
            let i = lemma_repeat_tail_witness(firsts, n, s, pos, o);
            let f = firsts[i];
            lemma_node_keeps_len(*inner, s, pos, caps, f);
            if pos < f.end <= s.len() {
                lemma_push_contains(node_outcomes(n, s, f.end, f.caps), f, o);
                if o != f {
                    lemma_node_keeps_len(n, s, f.end, f.caps, o);
                }
            } else {
                assert(seq![f][0] == f);
            }
        },
        Node::Group(id, alts) => {
            let w = lemma_group_witness(id, alts, s, pos, caps, o);
            lemma_seq_keeps_len(alts[w.0], s, pos, caps, w.1);
        },
        Node::BackRef(id) => {},
        _ => {},
    }
}

/// A sequence of nodes keeps the number of captures.
pub proof fn lemma_seq_keeps_len(nodes: Seq<Node>, s: Seq<char>, pos: int, caps: Caps, o: Outcome)
    requires
        seq_outcomes(nodes, s, pos, caps).contains(o),
    ensures
        o.caps.len() == caps.len(),
    decreases nodes, s.len() - pos,
{
    if nodes.len() > 0 {
        let firsts = node_outcomes(nodes[0], s, pos, caps);
        let i = lemma_seq_tail_witness(firsts, nodes, s, o);
        lemma_node_keeps_len(nodes[0], s, pos, caps, firsts[i]);
        lemma_seq_keeps_len(nodes.drop_first(), s, firsts[i].end, firsts[i].caps, o);
    }
}

} // verus!
