//! Laws of matching that hold of every pattern and every subject.
//!
//! A pattern and a subject are sequences of code points here. The subject of
//! [`crate::patterns::match_pattern`] is the line without the line feed that
//! may end it, so each law holds of that function with the line's subject in
//! place of `s`.
use vstd::prelude::*;
use crate::locality::{lemma_accept_member, lemma_accept_witness, lemma_group_witness, lemma_seq_bounds, lemma_seq_keeps_len, lemma_seq_moves, lemma_seq_tail_member, lemma_seq_tail_witness, same_text, shifted};
use crate::model::{Node, Outcome, ProgramModel, captured, first_match, first_match_from, match_at, no_captures, node_outcomes, occurs_at, program_matches, seq_outcomes, span_text};
use crate::grouping::{lemma_scan_lifted, lemma_scan_lifted_refusal, lifted, self_contained};
use crate::matchers::contains_text;
use crate::parser::{Level, ParseError, ScanModel, emit, ends_with_anchor, escape_pending, finish, group_of_digit, initial, is_group_digit, lemma_scan_refusal_stays, parse_model, scan, starts_with_anchor, step, unanchored};
use crate::renumber::{lemma_seq_renumbered, nodes_read_no_capture, renumbered_nodes};
use crate::wellformed::lemma_top_level_has_no_alternatives;
use crate::patterns::pattern_matches;

verus! {

/// Where a program matches at `start`, its outcome is an outcome of its nodes
/// there that ends where the program may end.
pub proof fn lemma_match_at_witness(program: ProgramModel, s: Seq<char>, start: int) -> (o: Outcome)
    requires
        match_at(program, s, start) is Some,
    ensures
        seq_outcomes(program.nodes, s, start, no_captures(program.groups)).contains(o),
        program.anchored_end ==> o.end == s.len(),
        match_at(program, s, start) == Some(o),
{
    let os = seq_outcomes(program.nodes, s, start, no_captures(program.groups));
    let i = lemma_accept_witness(os, program.anchored_end, s);
    os[i]
}

/// A program matches at `start` if its nodes have an outcome there that ends
/// where the program may end.
pub proof fn lemma_match_at_member(program: ProgramModel, s: Seq<char>, start: int, o: Outcome)
    requires
        seq_outcomes(program.nodes, s, start, no_captures(program.groups)).contains(o),
        program.anchored_end ==> o.end == s.len(),
    ensures
        match_at(program, s, start) is Some,
{
    let os = seq_outcomes(program.nodes, s, start, no_captures(program.groups));
    lemma_accept_member(os, program.anchored_end, s, o);
}

/// A search that finds a match finds it at some position from `from` on.
pub proof fn lemma_search_witness(program: ProgramModel, s: Seq<char>, from: int) -> (start: int)
    requires
        first_match_from(program, s, from) is Some,
    ensures
        from <= start <= s.len(),
        match_at(program, s, start) is Some,
        first_match_from(program, s, from) == Some((start, match_at(program, s, start)->0)),
    decreases s.len() + 1 - from,
{
    if match_at(program, s, from) is Some {
        from
    } else {
        lemma_search_witness(program, s, from + 1)
    }
}

/// A search from `from` on finds a match if there is one at `start`.
pub proof fn lemma_search_member(program: ProgramModel, s: Seq<char>, from: int, start: int)
    requires
        from <= start <= s.len(),
        match_at(program, s, start) is Some,
    ensures
        first_match_from(program, s, from) is Some,
    decreases start - from,
{
    if from < start && match_at(program, s, from) is None {
        lemma_search_member(program, s, from + 1, start);
    }
}

/// Where a program matches: at position 0 if it is anchored at the start, at
/// some position up to the end of the subject if it is not.
pub proof fn lemma_matches_witness(program: ProgramModel, s: Seq<char>) -> (start: int)
    requires
        program_matches(program, s),
    ensures
        0 <= start <= s.len(),
        program.anchored_start ==> start == 0,
        match_at(program, s, start) is Some,
{
    if program.anchored_start {
        0
    } else {
        lemma_search_witness(program, s, 0)
    }
}

/// A program matches if it matches at a position at which it is tried.
pub proof fn lemma_matches_member(program: ProgramModel, s: Seq<char>, start: int)
    requires
        0 <= start <= s.len(),
        program.anchored_start ==> start == 0,
        match_at(program, s, start) is Some,
    ensures
        program_matches(program, s),
{
    if !program.anchored_start {
        lemma_search_member(program, s, 0, start);
    }
}

/// Whether `c` alone is a pattern that stands for the code point `c`: it is
/// none of `\`, `[`, `.`, `+`, `?`, `(`, `^` and `$`.
pub open spec fn is_plain(c: char) -> bool {
    c != '\\' && c != '[' && c != '.' && c != '+' && c != '?' && c != '(' && c != '^' && c != '$'
}

/// The program of a single literal.
pub open spec fn literal_program(c: char) -> ProgramModel {
    ProgramModel { nodes: seq![Node::Literal(c)], anchored_start: false, anchored_end: false, groups: 0 }
}

/// A pattern of one plain code point is the program of that literal.
pub proof fn lemma_parse_plain(c: char)
    requires
        is_plain(c),
    ensures
        parse_model(seq![c]) == Ok::<ProgramModel, ParseError>(literal_program(c)),
{
    let p = seq![c];
    assert(p[0] == c);
    assert(p.last() == c);
    assert(unanchored(p) == p);
    assert(scan(p, 0) == Ok::<ScanModel, ParseError>(initial()));
    let st = emit(initial(), Node::Literal(c));
    assert(step(initial(), c) == Ok::<ScanModel, ParseError>(st));
    assert(scan(p, 1) == Ok::<ScanModel, ParseError>(st)) by {
        reveal_with_fuel(scan, 2);
    }
    assert(st.top.current =~= seq![Node::Literal(c)]);
}

/// The program of a literal matches at a position exactly if the literal
/// stands there.
pub proof fn lemma_literal_at(c: char, s: Seq<char>, start: int)
    ensures
        match_at(literal_program(c), s, start) is Some <==> (0 <= start < s.len() && s[start] == c),
{
    let program = literal_program(c);
    let caps = no_captures(0);
    let firsts = node_outcomes(Node::Literal(c), s, start, caps);
    assert(program.nodes[0] == Node::Literal(c));
    if 0 <= start < s.len() && s[start] == c {
        let o = Outcome { end: start + 1, caps };
        assert(firsts[0] == o);
        assert(seq_outcomes(program.nodes.drop_first(), s, o.end, o.caps)[0] == o);
        lemma_seq_tail_member(firsts, program.nodes, s, 0, o);
        lemma_match_at_member(program, s, start, o);
    } else {
        if match_at(program, s, start) is Some {
            let o = lemma_match_at_witness(program, s, start);
            let i = lemma_seq_tail_witness(firsts, program.nodes, s, o);
        }
    }
}

/// A pattern that is a single literal matches exactly the subjects that
/// contain the literal.
pub proof fn law_single_literal(c: char, s: Seq<char>)
    requires
        is_plain(c),
    ensures
        pattern_matches(seq![c], s) <==> s.contains(c),
{
    lemma_parse_plain(c);
    let program = literal_program(c);
    if program_matches(program, s) {
        let start = lemma_matches_witness(program, s);
        lemma_literal_at(c, s, start);
    }
    if s.contains(c) {
        let i = choose|i: int| 0 <= i < s.len() && s[i] == c;
        lemma_literal_at(c, s, i);
        lemma_matches_member(program, s, i);
    }
}

/// A program that is not anchored at the end and matches a subject matches
/// every subject that begins with it.
pub proof fn lemma_program_longer_subject(program: ProgramModel, s: Seq<char>, t: Seq<char>)
    requires
        !program.anchored_end,
        program_matches(program, s),
    ensures
        program_matches(program, s + t),
{
    let start = lemma_matches_witness(program, s);
    let o = lemma_match_at_witness(program, s, start);
    let caps = no_captures(program.groups);
    lemma_seq_bounds(program.nodes, s, start, caps, o);
    assert(same_text(s, s + t, start, s.len() as int, 0));
    lemma_seq_moves(program.nodes, s, s + t, start, s.len() as int, 0, caps, o);
    assert(shifted(o, 0) == o);
    lemma_match_at_member(program, s + t, start, o);
    lemma_matches_member(program, s + t, start);
}

/// A pattern without `$` that matches a subject matches the subject with any
/// text added at its end.
pub proof fn law_longer_subject(p: Seq<char>, s: Seq<char>, t: Seq<char>)
    requires
        !p.contains('$'),
        pattern_matches(p, s),
    ensures
        pattern_matches(p, s + t),
{
    let body = if starts_with_anchor(p) {
        p.skip(1)
    } else {
        p
    };
    if body.len() > 0 {
        assert(p.contains(body.last())) by {
            if starts_with_anchor(p) {
                assert(body.last() == p[p.len() - 1]);
            }
        }
    }
    lemma_program_longer_subject(parse_model(p)->Ok_0, s, t);
}

/// A pattern behind `^` is the same program, anchored at the start, if the
/// pattern does not itself start with `^`.
pub proof fn lemma_parse_behind_anchor(p: Seq<char>)
    requires
        !starts_with_anchor(p),
    ensures
        match parse_model(p) {
            Ok(program) => parse_model(seq!['^'] + p) == Ok::<ProgramModel, ParseError>(
                ProgramModel { anchored_start: true, ..program },
            ),
            Err(e) => parse_model(seq!['^'] + p) == Err::<ProgramModel, ParseError>(e),
        },
{
    let q = seq!['^'] + p;
    assert(q[0] == '^');
    assert(q.skip(1) =~= p);
}

/// A pattern that matches when anchored at the start matches without the
/// anchor. This holds of every pattern that does not itself start with `^`:
/// behind another `^` such a `^` is a literal.
pub proof fn law_anchored_implies_unanchored(p: Seq<char>, s: Seq<char>)
    requires
        !starts_with_anchor(p),
        pattern_matches(seq!['^'] + p, s),
    ensures
        pattern_matches(p, s),
{
    lemma_parse_behind_anchor(p);
    let program = parse_model(p)->Ok_0;
    let anchored = ProgramModel { anchored_start: true, ..program };
    assert(match_at(anchored, s, 0) == match_at(program, s, 0));
    lemma_matches_member(program, s, 0);
}

/// Whether a code point follows an unescaped `\` depends only on what stands
/// before it.
pub proof fn lemma_escape_pending_prefix(p: Seq<char>, q: Seq<char>, n: int)
    requires
        0 <= n <= p.len(),
    ensures
        escape_pending(p + q, n) == escape_pending(p, n),
    decreases n,
{
    if n > 0 {
        lemma_escape_pending_prefix(p, q, n - 1);
        assert((p + q)[n - 1] == p[n - 1]);
    }
}

/// A pattern between `^` and `$` is the same program with both anchors, if
/// the pattern has no anchor of its own and does not end in an unescaped `\`,
/// which would escape the `$`.
pub proof fn lemma_parse_between_anchors(p: Seq<char>)
    requires
        !starts_with_anchor(p),
        !ends_with_anchor(p),
        !escape_pending(p, p.len() as int),
    ensures
        match parse_model(p) {
            Ok(program) => !program.anchored_start && !program.anchored_end && parse_model(
                seq!['^'] + p + seq!['$'],
            ) == Ok::<ProgramModel, ParseError>(
                ProgramModel { anchored_start: true, anchored_end: true, ..program },
            ),
            Err(e) => parse_model(seq!['^'] + p + seq!['$']) == Err::<ProgramModel, ParseError>(e),
        },
{
    let q = seq!['^'] + p + seq!['$'];
    let body = p + seq!['$'];
    assert(q[0] == '^');
    assert(q.skip(1) =~= body);
    assert(body.last() == '$');
    lemma_escape_pending_prefix(p, seq!['$'], p.len() as int);
    assert(ends_with_anchor(body));
    assert(body.drop_last() =~= p);
    assert(unanchored(q) == p);
    assert(unanchored(p) == p);
}

/// A program without anchors matches a subject exactly if, with both anchors,
/// it matches some piece of the subject.
pub proof fn lemma_program_matches_piece(program: ProgramModel, s: Seq<char>)
    requires
        !program.anchored_start,
        !program.anchored_end,
    ensures
        program_matches(program, s) <==> exists|i: int, j: int|
            0 <= i <= j <= s.len() && #[trigger] program_matches(
                ProgramModel { anchored_start: true, anchored_end: true, ..program },
                s.subrange(i, j),
            ),
{
    let both = ProgramModel { anchored_start: true, anchored_end: true, ..program };
    let caps = no_captures(program.groups);
    if program_matches(program, s) {
        let i = lemma_matches_witness(program, s);
        let o = lemma_match_at_witness(program, s, i);
        lemma_seq_bounds(program.nodes, s, i, caps, o);
        let j = o.end;
        let u = s.subrange(i, j);
        assert(same_text(s, u, i, j, -i));
        lemma_seq_moves(program.nodes, s, u, i, j, -i, caps, o);
        lemma_match_at_member(both, u, 0, shifted(o, -i));
        lemma_matches_member(both, u, 0);
        assert(0 <= i <= j <= s.len() && program_matches(both, s.subrange(i, j)));
    }
    if exists|i: int, j: int| 0 <= i <= j <= s.len() && #[trigger] program_matches(both, s.subrange(i, j)) {
        let (i, j) = choose|i: int, j: int|
            0 <= i <= j <= s.len() && #[trigger] program_matches(both, s.subrange(i, j));
        let u = s.subrange(i, j);
        let o = lemma_match_at_witness(both, u, 0);
        assert(same_text(u, s, 0, u.len() as int, i));
        lemma_seq_moves(program.nodes, u, s, 0, u.len() as int, i, caps, o);
        lemma_match_at_member(program, s, i, shifted(o, i));
        lemma_matches_member(program, s, i);
    }
}

/// A pattern matches a subject exactly if, between `^` and `$`, it matches
/// some piece of the subject: a prefix of a suffix. This holds of every
/// pattern without `^` that does not end in the anchor `$`, which behind
/// another `$` is a literal, nor in an unescaped `\`, which would escape the
/// `$`.
pub proof fn law_match_is_anchored_match_of_piece(p: Seq<char>, s: Seq<char>)
    requires
        !p.contains('^'),
        !ends_with_anchor(p),
        !escape_pending(p, p.len() as int),
    ensures
        pattern_matches(p, s) <==> exists|i: int, j: int|
            0 <= i <= j <= s.len() && #[trigger] pattern_matches(
                seq!['^'] + p + seq!['$'],
                s.subrange(i, j),
            ),
{
    let q = seq!['^'] + p + seq!['$'];
    if p.len() > 0 {
        assert(p.contains(p[0]));
    }
    lemma_parse_between_anchors(p);
    match parse_model(p) {
        Ok(program) => {
            let both = ProgramModel { anchored_start: true, anchored_end: true, ..program };
            lemma_program_matches_piece(program, s);
            if pattern_matches(p, s) {
                let (i, j) = choose|i: int, j: int|
                    0 <= i <= j <= s.len() && #[trigger] program_matches(both, s.subrange(i, j));
                assert(0 <= i <= j <= s.len() && pattern_matches(q, s.subrange(i, j)));
            }
            if exists|i: int, j: int|
                0 <= i <= j <= s.len() && #[trigger] pattern_matches(q, s.subrange(i, j)) {
                let (i, j) = choose|i: int, j: int|
                    0 <= i <= j <= s.len() && #[trigger] pattern_matches(q, s.subrange(i, j));
                assert(0 <= i <= j <= s.len() && program_matches(both, s.subrange(i, j)));
            }
        },
        Err(e) => {},
    }
}

/// The pattern `p` in a group, followed by a blank and a back-reference to
/// the group: `(p) \1`.
pub open spec fn with_back_reference(p: Seq<char>) -> Seq<char> {
    seq!['('] + p + seq![')', ' ', '\\', '1']
}

/// The program of a group around `inner`, a blank, and a back-reference to
/// the group.
pub open spec fn back_reference_program(inner: Seq<Node>, groups: nat) -> ProgramModel {
    ProgramModel {
        nodes: seq![Node::Group(0, seq![inner]), Node::Literal(' '), Node::BackRef(0)],
        anchored_start: false,
        anchored_end: false,
        groups,
    }
}

/// Where a group, a blank and a back-reference to the group match, the text
/// that the group captured stands twice with a blank between, and the inside
/// of the group matches exactly that text.
pub proof fn lemma_back_reference_program(inner: Seq<Node>, groups: nat, s: Seq<char>) -> (w: (
    int,
    Outcome,
))
    requires
        groups > 0,
        program_matches(back_reference_program(inner, groups), s),
    ensures
        ({
            let found = first_match(back_reference_program(inner, groups), s)->0;
            let text = span_text(s, w.0, w.1.end);
            &&& found.0 == w.0
            &&& 0 <= w.0 <= w.1.end <= s.len()
            &&& captured(found.1.caps, 0) == Some(text)
            &&& occurs_at(s, w.0, text + seq![' '] + text)
            &&& seq_outcomes(inner, s, w.0, no_captures(groups)).contains(w.1)
        }),
{
    let program = back_reference_program(inner, groups);
    let caps = no_captures(groups);
    let start = lemma_search_witness(program, s, 0);
    let o = lemma_match_at_witness(program, s, start);
    let nodes = program.nodes;
    let group = Node::Group(0, seq![inner]);
    // The group.
    let firsts = node_outcomes(group, s, start, caps);
    assert(nodes[0] == group);
    let i1 = lemma_seq_tail_witness(firsts, nodes, s, o);
    let f1 = firsts[i1];
    let gw = lemma_group_witness(0, seq![inner], s, start, caps, f1);
    assert(seq![inner][gw.0] == inner);
    let body = gw.1;
    lemma_seq_bounds(inner, s, start, caps, body);
    lemma_seq_keeps_len(inner, s, start, caps, body);
    let text = span_text(s, start, body.end);
    assert(captured(f1.caps, 0) == Some(text));
    // The blank.
    let rest1 = nodes.drop_first();
    assert(rest1[0] == Node::Literal(' '));
    let blanks = node_outcomes(Node::Literal(' '), s, f1.end, f1.caps);
    let i2 = lemma_seq_tail_witness(blanks, rest1, s, o);
    let f2 = blanks[i2];
    assert(f2 == Outcome { end: f1.end + 1, caps: f1.caps });
    // The back-reference.
    let rest2 = rest1.drop_first();
    assert(rest2[0] == Node::BackRef(0));
    let backs = node_outcomes(Node::BackRef(0), s, f2.end, f2.caps);
    let i3 = lemma_seq_tail_witness(backs, rest2, s, o);
    let f3 = backs[i3];
    assert(f3 == Outcome { end: f2.end + text.len(), caps: f1.caps });
    assert(rest2.drop_first().len() == 0);
    assert(o == f3);
    assert(s.subrange(start, start + (text + seq![' '] + text).len()) =~= text + seq![' '] + text) by {
        assert(s.subrange(f2.end, f2.end + text.len()) == text);
        assert(s.subrange(start, body.end) == text);
        assert(s[f1.end] == ' ');
        assert forall|x: int| 0 <= x < 2 * text.len() + 1 implies s[start + x] == (text + seq![' ']
            + text)[x] by {
            if x < text.len() {
                assert(s.subrange(start, body.end)[x] == s[start + x]);
            } else if x > text.len() {
                assert(s.subrange(f2.end, f2.end + text.len())[x - text.len() - 1] == s[start + x]);
            }
        }
    }
    (start, body)
}

/// What the parser makes of `(p) \1`, for a pattern `p` without anchors that
/// means the same inside a group as alone: the program of `p`, its groups
/// numbered one higher, inside group 0, followed by a blank and a
/// back-reference to group 0. Where `p` is refused, `(p) \1` is refused.
pub proof fn lemma_parse_with_back_reference(p: Seq<char>)
    requires
        self_contained(p),
        !starts_with_anchor(p),
        !ends_with_anchor(p),
    ensures
        match parse_model(p) {
            Ok(program) => parse_model(with_back_reference(p)) == Ok::<ProgramModel, ParseError>(
                back_reference_program(renumbered_nodes(program.nodes, 1), program.groups + 1),
            ) && nodes_read_no_capture(program.nodes) && !program.anchored_start
                && !program.anchored_end,
            Err(_) => parse_model(with_back_reference(p)) is Err,
        },
{
    let w = with_back_reference(p);
    let n = p.len() as int;
    assert(w.len() == n + 5);
    assert(w[0] == '(');
    assert(w.last() == '1');
    assert(unanchored(w) == w);
    assert(unanchored(p) == p);
    assert forall|i: int| 0 <= i < n implies w[i + 1] == p[i] by {}
    assert(w[n + 1] == ')' && w[n + 2] == ' ' && w[n + 3] == '\\' && w[n + 4] == '1');
    if scan(p, n) is Err {
        lemma_scan_lifted_refusal(p, w, n);
        lemma_scan_refusal_stays(w, n + 1, n + 5);
    } else {
        lemma_scan_lifted(p, w, n);
        lemma_top_level_has_no_alternatives(p, n);
        let st = scan(p, n)->Ok_0;
        let l0 = lifted(st);
        let r1 = step(l0, ')');
        assert(scan(w, n + 2) == r1);
        assert(r1 is Ok);
        let r2 = step(r1->Ok_0, ' ');
        assert(scan(w, n + 3) == r2);
        assert(r2 is Ok);
        let r3 = step(r2->Ok_0, '\\');
        assert(scan(w, n + 4) == r3);
        assert(r3 is Ok);
        let r4 = step(r3->Ok_0, '1');
        assert(scan(w, n + 5) == r4);
        assert(is_group_digit('1') && group_of_digit('1') == 0);
        assert(r4 is Ok);
        if finish(st) is Ok {
            let inner = renumbered_nodes(st.top.current, 1);
            assert(l0.top.done =~= Seq::<Seq<Node>>::empty());
            assert(l0.top.done.push(l0.top.current) =~= seq![inner]);
            assert(l0.outer.drop_last() =~= Seq::<Level>::empty());
            assert(r4->Ok_0.top.current =~= back_reference_program(inner, st.groups + 1).nodes);
            assert(r4->Ok_0.outer.len() == 0);
        } else {
            assert(finish(r4->Ok_0) is Err);
        }
    }
}

/// Back-reference law. Where `(p) \1` matches a subject and its group has
/// captured `g`, the pattern `p` matches `g`, and the subject contains `g`,
/// a blank, and `g` again.
///
/// This is stated of every pattern `p` without anchors that means the same
/// inside a group as alone: one that holds no back-reference, and no `|` or
/// `)` outside its own groups.
pub proof fn law_back_reference(p: Seq<char>, s: Seq<char>)
    requires
        self_contained(p),
        !starts_with_anchor(p),
        !ends_with_anchor(p),
        pattern_matches(with_back_reference(p), s),
    ensures
        ({
            let found = first_match(parse_model(with_back_reference(p))->Ok_0, s)->0;
            let g = captured(found.1.caps, 0);
            &&& g is Some
            &&& pattern_matches(p, g->0)
            &&& contains_text(s, g->0 + seq![' '] + g->0)
        }),
{
    lemma_parse_with_back_reference(p);
    let program = parse_model(p)->Ok_0;
    let inner = renumbered_nodes(program.nodes, 1);
    let groups = program.groups + 1;
    let w = lemma_back_reference_program(inner, groups, s);
    let start = w.0;
    let g = span_text(s, start, w.1.end);
    let plain = lemma_seq_renumbered(
        program.nodes,
        1,
        s,
        start,
        no_captures(groups),
        no_captures(program.groups),
        w.1,
    );
    assert(same_text(s, g, start, plain.end, -start));
    lemma_seq_moves(program.nodes, s, g, start, plain.end, -start, no_captures(program.groups), plain);
    lemma_match_at_member(program, g, 0, shifted(plain, -start));
    lemma_matches_member(program, g, 0);
    assert(occurs_at(s, start, g + seq![' '] + g));
}

} // verus!
