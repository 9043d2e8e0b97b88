//! Facts about lists of outcomes that the matcher's proofs share.
use vstd::prelude::*;
use crate::model::{Caps, Node, Outcome, Rest, accepted, close_all, close_group, group_alts, node_outcomes, repeat_again, repeat_tail, rest_result, seq_outcomes, seq_tail};

verus! {

/// Over two lists joined, the first list is searched first.
pub proof fn lemma_accepted_concat(a: Seq<Outcome>, b: Seq<Outcome>, k: Rest, s: Seq<char>)
    ensures
        accepted(a + b, k, s) == (match accepted(a, k, s) {
            Some(r) => Some(r),
            None => accepted(b, k, s),
        }),
    decreases a.len(),
{
    if a.len() == 0 {
        assert(a + b =~= b);
    } else {
        assert((a + b)[0] == a[0]);
        assert((a + b).drop_first() =~= a.drop_first() + b);
        lemma_accepted_concat(a.drop_first(), b, k, s);
    }
}

/// A single outcome is accepted if the rest matches from it.
pub proof fn lemma_accepted_one(o: Outcome, k: Rest, s: Seq<char>)
    ensures
        accepted(seq![o], k, s) == rest_result(k, s, o.end, o.caps),
{
    assert(seq![o].drop_first() =~= Seq::<Outcome>::empty());
    assert(accepted(seq![o].drop_first(), k, s) is None);
    assert(seq![o][0] == o);
}

/// With one more outcome at the end, that outcome is tried last.
pub proof fn lemma_accepted_push(os: Seq<Outcome>, o: Outcome, k: Rest, s: Seq<char>)
    ensures
        accepted(os.push(o), k, s) == (match accepted(os, k, s) {
            Some(r) => Some(r),
            None => rest_result(k, s, o.end, o.caps),
        }),
{
    assert(os.push(o) =~= os + seq![o]);
    lemma_accepted_concat(os, seq![o], k, s);
    lemma_accepted_one(o, k, s);
}

proof fn lemma_accepted_seq_tail(firsts: Seq<Outcome>, nodes: Seq<Node>, k: Rest, s: Seq<char>)
    requires
        nodes.len() > 0,
    ensures
        accepted(seq_tail(firsts, nodes, s), k, s) == accepted(
            firsts,
            Rest::Sequence(nodes.drop_first(), Box::new(k)),
            s,
        ),
    decreases firsts.len(),
{
    if firsts.len() > 0 {
        lemma_accepted_concat(
            seq_outcomes(nodes.drop_first(), s, firsts[0].end, firsts[0].caps),
            seq_tail(firsts.drop_first(), nodes, s),
            k,
            s,
        );
        lemma_accepted_seq_tail(firsts.drop_first(), nodes, k, s);
        let k2 = Rest::Sequence(nodes.drop_first(), Box::new(k));
        assert(rest_result(k2, s, firsts[0].end, firsts[0].caps) == accepted(
            seq_outcomes(nodes.drop_first(), s, firsts[0].end, firsts[0].caps),
            k,
            s,
        ));
    }
}

/// Matching a list of nodes and then `k` is matching the first node with the
/// other nodes and `k` as the rest.
pub proof fn lemma_accepted_seq(nodes: Seq<Node>, k: Rest, s: Seq<char>, pos: int, caps: Caps)
    ensures
        accepted(seq_outcomes(nodes, s, pos, caps), k, s) == (if nodes.len() == 0 {
            rest_result(k, s, pos, caps)
        } else {
            accepted(
                node_outcomes(nodes[0], s, pos, caps),
                Rest::Sequence(nodes.drop_first(), Box::new(k)),
                s,
            )
        }),
{
    if nodes.len() == 0 {
        lemma_accepted_one(Outcome { end: pos, caps }, k, s);
    } else {
        lemma_accepted_seq_tail(node_outcomes(nodes[0], s, pos, caps), nodes, k, s);
    }
}

proof fn lemma_accepted_repeat_tail(firsts: Seq<Outcome>, rep: Node, since: int, k: Rest, s: Seq<char>)
    ensures
        accepted(repeat_tail(firsts, rep, s, since), k, s) == accepted(
            firsts,
            Rest::RepeatAgain(rep, since, Box::new(k)),
            s,
        ),
    decreases firsts.len(),
{
    if firsts.len() > 0 {
        lemma_accepted_concat(
            repeat_again(rep, s, since, firsts[0]),
            repeat_tail(firsts.drop_first(), rep, s, since),
            k,
            s,
        );
        lemma_accepted_repeat_tail(firsts.drop_first(), rep, since, k, s);
        let k2 = Rest::RepeatAgain(rep, since, Box::new(k));
        assert(rest_result(k2, s, firsts[0].end, firsts[0].caps) == accepted(
            repeat_again(rep, s, since, firsts[0]),
            k,
            s,
        ));
    }
}

/// Matching a repetition and then `k` is matching the inner node once, with
/// "repeat again or go on with `k`" as the rest.
pub proof fn lemma_accepted_repeat(inner: Node, k: Rest, s: Seq<char>, pos: int, caps: Caps)
    ensures
        accepted(node_outcomes(Node::Repeat(Box::new(inner)), s, pos, caps), k, s) == accepted(
            node_outcomes(inner, s, pos, caps),
            Rest::RepeatAgain(Node::Repeat(Box::new(inner)), pos, Box::new(k)),
            s,
        ),
{
    lemma_accepted_repeat_tail(
        node_outcomes(inner, s, pos, caps),
        Node::Repeat(Box::new(inner)),
        pos,
        k,
        s,
    );
}

/// Matching the outcomes of a group's alternative and then `k` is matching
/// the alternative with "close the group, then `k`" as the rest.
pub proof fn lemma_accepted_close_all(os: Seq<Outcome>, id: nat, start: int, k: Rest, s: Seq<char>)
    ensures
        accepted(close_all(os, id, s, start), k, s) == accepted(
            os,
            Rest::CloseGroup(id, start, Box::new(k)),
            s,
        ),
    decreases os.len(),
{
    if os.len() > 0 {
        assert(close_all(os, id, s, start).drop_first() =~= close_all(os.drop_first(), id, s, start));
        lemma_accepted_close_all(os.drop_first(), id, start, k, s);
        let k2 = Rest::CloseGroup(id, start, Box::new(k));
        let c = close_all(os, id, s, start);
        assert(c[0] == close_group(os[0], id, s, start));
        assert(rest_result(k2, s, os[0].end, os[0].caps) == rest_result(k, s, c[0].end, c[0].caps));
    }
}

/// Matching a group and then `k` is trying the first alternative, and if it
/// does not lead to a match, the group of the other alternatives.
pub proof fn lemma_accepted_group(
    id: nat,
    alts: Seq<Seq<Node>>,
    k: Rest,
    s: Seq<char>,
    pos: int,
    caps: Caps,
)
    ensures
        accepted(group_alts(id, alts, s, pos, caps), k, s) == (if alts.len() == 0 {
            None
        } else {
            match accepted(
                seq_outcomes(alts[0], s, pos, caps),
                Rest::CloseGroup(id, pos, Box::new(k)),
                s,
            ) {
                Some(r) => Some(r),
                None => accepted(group_alts(id, alts.drop_first(), s, pos, caps), k, s),
            }
        }),
{
    if alts.len() > 0 {
        lemma_accepted_concat(
            close_all(seq_outcomes(alts[0], s, pos, caps), id, s, pos),
            group_alts(id, alts.drop_first(), s, pos, caps),
            k,
            s,
        );
        lemma_accepted_close_all(seq_outcomes(alts[0], s, pos, caps), id, pos, k, s);
    }
}

} // verus!
