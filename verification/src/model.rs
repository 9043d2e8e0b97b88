//! The mathematical model of patterns and of matching.
//!
//! A pattern is a tree of [`Node`]s. Matching is described by a *list of
//! outcomes*: for a node, a subject, a position and the captures recorded so
//! far, [`node_outcomes`] lists every way the node can consume the subject at
//! that position, most preferred first. Greedy quantifiers list their longest
//! consumption first, and a group lists the outcomes of its alternatives in the
//! order in which the alternatives are written.
use vstd::prelude::*;

verus! {

/// One node of a pattern tree.
pub ghost enum Node {
    /// Exactly this code point.
    Literal(char),
    /// One of `0` to `9`.
    Digit,
    /// One of `0` to `9`, `A` to `Z`, `a` to `z`, or `_`.
    WordLike,
    /// Any code point but a line feed.
    Wildcard,
    /// A character class: its members, and whether it is negated.
    CharClass(Seq<Node>, bool),
    /// One or more of the inner node, greedy.
    Repeat(Box<Node>),
    /// Zero or one of the inner node, greedy.
    Optional(Box<Node>),
    /// A capturing group: its number, and its alternatives.
    Group(nat, Seq<Seq<Node>>),
    /// The text that the group of this number captured.
    BackRef(nat),
}

/// The text captured by each group so far; `None` for a group that has not
/// matched.
pub type Caps = Seq<Option<Seq<char>>>;

/// One way of matching: where the match ends, and the captures at that point.
pub ghost struct Outcome {
    pub end: int,
    pub caps: Caps,
}

/// A parsed pattern: its nodes in order, the two anchors, and the number of
/// capturing groups.
pub ghost struct ProgramModel {
    pub nodes: Seq<Node>,
    pub anchored_start: bool,
    pub anchored_end: bool,
    pub groups: nat,
}

/// Whether `c` is one of `0` to `9`.
pub open spec fn is_digit(c: char) -> bool {
    '0' <= c <= '9'
}

/// Whether `c` is one of `0` to `9`, `A` to `Z`, `a` to `z`, or `_`.
pub open spec fn is_word_like(c: char) -> bool {
    is_digit(c) || ('a' <= c <= 'z') || ('A' <= c <= 'Z') || c == '_'
}

/// Whether a member of a character class accepts `c`. Only literals, `\d` and
/// `\w` can be members; any other node accepts nothing.
pub open spec fn member_accepts(m: Node, c: char) -> bool {
    match m {
        Node::Literal(x) => x == c,
        Node::Digit => is_digit(c),
        Node::WordLike => is_word_like(c),
        _ => false,
    }
}

/// Whether some member accepts `c`.
pub open spec fn any_member_accepts(members: Seq<Node>, c: char) -> bool {
    exists|i: int| 0 <= i < members.len() && member_accepts(#[trigger] members[i], c)
}

/// Whether a node that consumes exactly one code point accepts `c`.
pub open spec fn accepts_char(n: Node, c: char) -> bool {
    match n {
        Node::Literal(x) => x == c,
        Node::Digit => is_digit(c),
        Node::WordLike => is_word_like(c),
        Node::Wildcard => c != '\n',
        Node::CharClass(members, negated) => any_member_accepts(members, c) != negated,
        _ => false,
    }
}

/// The captures before any group has matched.
pub open spec fn no_captures(groups: nat) -> Caps {
    Seq::new(groups, |i: int| None)
}

/// The subject between two positions, or nothing if they are not in order.
pub open spec fn span_text(s: Seq<char>, from: int, to: int) -> Seq<char> {
    if 0 <= from <= to <= s.len() {
        s.subrange(from, to)
    } else {
        Seq::empty()
    }
}

/// The captures after group `id` has captured `text`. A group number beyond
/// the captures is not recorded.
pub open spec fn record(caps: Caps, id: nat, text: Seq<char>) -> Caps {
    if id < caps.len() {
        caps.update(id as int, Some(text))
    } else {
        caps
    }
}

/// The text captured by group `id`, if it has matched.
pub open spec fn captured(caps: Caps, id: nat) -> Option<Seq<char>> {
    if id < caps.len() {
        caps[id as int]
    } else {
        None
    }
}

/// Whether `text` stands in `s` at `pos`.
pub open spec fn occurs_at(s: Seq<char>, pos: int, text: Seq<char>) -> bool {
    0 <= pos && pos + text.len() <= s.len() && s.subrange(pos, pos + text.len()) == text
}

/// The outcome of a group that started at `start`, from an outcome of one of
/// its alternatives.
pub open spec fn close_group(o: Outcome, id: nat, s: Seq<char>, start: int) -> Outcome {
    Outcome { end: o.end, caps: record(o.caps, id, span_text(s, start, o.end)) }
}

/// The outcomes of a group that started at `start`, from the outcomes of one
/// of its alternatives, in the same order.
pub open spec fn close_all(os: Seq<Outcome>, id: nat, s: Seq<char>, start: int) -> Seq<Outcome> {
    Seq::new(os.len(), |i: int| close_group(os[i], id, s, start))
}

/// Every way in which node `n` can match `s` at `pos`, given the captures so
/// far, most preferred first.
///
/// A node that consumes one code point has one outcome or none. An optional
/// node prefers to match its inner node. A repetition prefers to repeat. A
/// group tries its alternatives in order and records what it matched. A
/// back-reference matches the text that its group holds, and nothing if the
/// group has not matched.
pub open spec fn node_outcomes(n: Node, s: Seq<char>, pos: int, caps: Caps) -> Seq<Outcome>
    decreases n, s.len() - pos, 2int, 0nat,
{
    match n {
        Node::Optional(inner) => node_outcomes(*inner, s, pos, caps).push(Outcome { end: pos, caps }),
        Node::Repeat(inner) => repeat_tail(node_outcomes(*inner, s, pos, caps), n, s, pos),
        Node::Group(id, alts) => group_alts(id, alts, s, pos, caps),
        Node::BackRef(id) => match captured(caps, id) {
            Some(text) => if occurs_at(s, pos, text) {
                seq![Outcome { end: pos + text.len(), caps }]
            } else {
                Seq::empty()
            },
            None => Seq::empty(),
        },
        _ => if 0 <= pos < s.len() && accepts_char(n, s[pos]) {
            seq![Outcome { end: pos + 1, caps }]
        } else {
            Seq::empty()
        },
    }
}

/// After one repetition of `rep`'s inner node has ended in `o`, having started
/// at `since`: further repetitions are preferred, stopping here comes last. A
/// repetition that consumed nothing is not repeated.
pub open spec fn repeat_again(rep: Node, s: Seq<char>, since: int, o: Outcome) -> Seq<Outcome>
    decreases rep, s.len() - since, 0int, 0nat,
{
    if since < o.end <= s.len() {
        node_outcomes(rep, s, o.end, o.caps).push(o)
    } else {
        seq![o]
    }
}

/// The outcomes of the repetition `rep` that started at `since`, from the
/// outcomes `firsts` of its first repetition.
pub open spec fn repeat_tail(firsts: Seq<Outcome>, rep: Node, s: Seq<char>, since: int) -> Seq<Outcome>
    decreases rep, s.len() - since, 1int, firsts.len(),
{
    if firsts.len() == 0 {
        Seq::empty()
    } else {
        repeat_again(rep, s, since, firsts[0]) + repeat_tail(firsts.drop_first(), rep, s, since)
    }
}

/// The outcomes of group `id` at `pos` whose alternatives are `alts`: those of
/// the first alternative, then those of the second, and so on.
pub open spec fn group_alts(id: nat, alts: Seq<Seq<Node>>, s: Seq<char>, pos: int, caps: Caps) -> Seq<
    Outcome,
>
    decreases alts, 0int, 0int, 0nat,
{
    if alts.len() == 0 {
        Seq::empty()
    } else {
        close_all(seq_outcomes(alts[0], s, pos, caps), id, s, pos) + group_alts(
            id,
            alts.drop_first(),
            s,
            pos,
            caps,
        )
    }
}

/// Every way in which the nodes, one after the other, can match `s` at `pos`,
/// most preferred first.
pub open spec fn seq_outcomes(nodes: Seq<Node>, s: Seq<char>, pos: int, caps: Caps) -> Seq<Outcome>
    decreases nodes, 0int, 1int, 0nat,
{
    if nodes.len() == 0 {
        seq![Outcome { end: pos, caps }]
    } else {
        seq_tail(node_outcomes(nodes[0], s, pos, caps), nodes, s)
    }
}

/// The outcomes of `nodes`, from the outcomes `firsts` of its first node.
pub open spec fn seq_tail(firsts: Seq<Outcome>, nodes: Seq<Node>, s: Seq<char>) -> Seq<Outcome>
    decreases nodes, 0int, 0int, firsts.len(),
{
    if firsts.len() == 0 || nodes.len() == 0 {
        Seq::empty()
    } else {
        seq_outcomes(nodes.drop_first(), s, firsts[0].end, firsts[0].caps) + seq_tail(
            firsts.drop_first(),
            nodes,
            s,
        )
    }
}

/// What remains to be matched after a node: the continuation of a match.
pub ghost enum Rest {
    /// Nothing remains. The flag says whether the match has to end at the end
    /// of the subject.
    Accept(bool),
    /// These nodes, then the rest.
    Sequence(Seq<Node>, Box<Rest>),
    /// The group of this number, which started at this position, ends here;
    /// then the rest.
    CloseGroup(nat, int, Box<Rest>),
    /// One repetition of the inner node of this `Repeat`, which started at
    /// this position, ends here; then more repetitions or the rest.
    RepeatAgain(Node, int, Box<Rest>),
}

/// The outcome of the whole match when `k` remains to be matched at `pos`:
/// the most preferred way of matching `k` that reaches `Accept`, if there is
/// one.
pub open spec fn rest_result(k: Rest, s: Seq<char>, pos: int, caps: Caps) -> Option<Outcome>
    decreases k, 0int, 0nat,
{
    match k {
        Rest::Accept(at_end) => if at_end ==> pos == s.len() {
            Some(Outcome { end: pos, caps })
        } else {
            None
        },
        Rest::Sequence(nodes, then) => accepted(seq_outcomes(nodes, s, pos, caps), *then, s),
        Rest::CloseGroup(id, start, then) => rest_result(
            *then,
            s,
            pos,
            record(caps, id, span_text(s, start, pos)),
        ),
        Rest::RepeatAgain(rep, since, then) => accepted(
            repeat_again(rep, s, since, Outcome { end: pos, caps }),
            *then,
            s,
        ),
    }
}

/// The outcome of the whole match when a node has the outcomes `os` and `k`
/// remains: that of the first outcome from which `k` can be matched.
pub open spec fn accepted(os: Seq<Outcome>, k: Rest, s: Seq<char>) -> Option<Outcome>
    decreases k, 1int, os.len(),
{
    if os.len() == 0 {
        None
    } else {
        match rest_result(k, s, os[0].end, os[0].caps) {
            Some(r) => Some(r),
            None => accepted(os.drop_first(), k, s),
        }
    }
}

/// The outcome of matching `program` with the match starting at `start`.
pub open spec fn match_at(program: ProgramModel, s: Seq<char>, start: int) -> Option<Outcome> {
    accepted(
        seq_outcomes(program.nodes, s, start, no_captures(program.groups)),
        Rest::Accept(program.anchored_end),
        s,
    )
}

/// The first position from `start` on at which `program` matches, with the
/// outcome of the match there.
pub open spec fn first_match_from(program: ProgramModel, s: Seq<char>, start: int) -> Option<
    (int, Outcome),
>
    decreases s.len() + 1 - start,
{
    if start > s.len() {
        None
    } else {
        match match_at(program, s, start) {
            Some(o) => Some((start, o)),
            None => first_match_from(program, s, start + 1),
        }
    }
}

/// The leftmost match of `program` in `s`: where it starts, and its outcome. An
/// anchored program matches at position 0 only.
pub open spec fn first_match(program: ProgramModel, s: Seq<char>) -> Option<(int, Outcome)> {
    if program.anchored_start {
        match match_at(program, s, 0) {
            Some(o) => Some((0, o)),
            None => None,
        }
    } else {
        first_match_from(program, s, 0)
    }
}

/// Whether `program` matches somewhere in `s`.
pub open spec fn program_matches(program: ProgramModel, s: Seq<char>) -> bool {
    first_match(program, s) is Some
}

/// Whether a node is a quantifier.
pub open spec fn is_quantifier(n: Node) -> bool {
    n is Repeat || n is Optional
}

/// Whether a node can be a member of a character class.
pub open spec fn is_class_member(n: Node) -> bool {
    n is Literal || n is Digit || n is WordLike
}

/// Whether a node is well formed in a pattern with `groups` groups: a
/// character class has members, each a literal, `\d` or `\w`; a quantifier
/// does not stand directly around a quantifier; a group has a number below
/// `groups` and at least one alternative; a back-reference refers to a group
/// below `groups`.
pub open spec fn node_wf(n: Node, groups: nat) -> bool
    decreases n,
{
    match n {
        Node::CharClass(members, _) => members.len() > 0 && forall|i: int|
            0 <= i < members.len() ==> is_class_member(#[trigger] members[i]),
        Node::Repeat(inner) => !is_quantifier(*inner) && node_wf(*inner, groups),
        Node::Optional(inner) => !is_quantifier(*inner) && node_wf(*inner, groups),
        Node::Group(id, alts) => id < groups && alts.len() > 0 && forall|j: int|
            0 <= j < alts.len() ==> nodes_wf(#[trigger] alts[j], groups),
        Node::BackRef(id) => id < groups,
        _ => true,
    }
}

/// Whether all nodes of a list are well formed.
pub open spec fn nodes_wf(nodes: Seq<Node>, groups: nat) -> bool
    decreases nodes,
{
    forall|i: int| 0 <= i < nodes.len() ==> node_wf(#[trigger] nodes[i], groups)
}

/// The numbers of the groups of a node, in the order in which the groups
/// open.
pub open spec fn node_group_ids(n: Node) -> Seq<nat>
    decreases n,
{
    match n {
        Node::Repeat(inner) => node_group_ids(*inner),
        Node::Optional(inner) => node_group_ids(*inner),
        Node::Group(id, alts) => seq![id] + alts_group_ids(alts),
        _ => Seq::empty(),
    }
}

/// The numbers of the groups of a list of nodes, in the order in which the
/// groups open.
pub open spec fn nodes_group_ids(nodes: Seq<Node>) -> Seq<nat>
    decreases nodes,
{
    if nodes.len() == 0 {
        Seq::empty()
    } else {
        nodes_group_ids(nodes.drop_last()) + node_group_ids(nodes.last())
    }
}

/// The numbers of the groups of a list of alternatives, in the order in which
/// the groups open.
pub open spec fn alts_group_ids(alts: Seq<Seq<Node>>) -> Seq<nat>
    decreases alts,
{
    if alts.len() == 0 {
        Seq::empty()
    } else {
        alts_group_ids(alts.drop_last()) + nodes_group_ids(alts.last())
    }
}

/// Whether every back-reference of a node refers to a group that opens
/// before the back-reference, if `opened` groups open before the node and
/// groups are numbered in the order in which they open.
pub open spec fn node_refers_back(n: Node, opened: nat) -> bool
    decreases n,
{
    match n {
        Node::BackRef(id) => id < opened,
        Node::Repeat(inner) => node_refers_back(*inner, opened),
        Node::Optional(inner) => node_refers_back(*inner, opened),
        Node::Group(_, alts) => alts_refer_back(alts, opened + 1),
        _ => true,
    }
}

/// Whether every back-reference in a list of nodes refers to a group that
/// opens before it, if `opened` groups open before the list.
pub open spec fn nodes_refer_back(nodes: Seq<Node>, opened: nat) -> bool
    decreases nodes,
{
    nodes.len() > 0 ==> nodes_refer_back(nodes.drop_last(), opened) && node_refers_back(
        nodes.last(),
        opened + nodes_group_ids(nodes.drop_last()).len(),
    )
}

/// Whether every back-reference in a list of alternatives refers to a group
/// that opens before it, if `opened` groups open before the list.
pub open spec fn alts_refer_back(alts: Seq<Seq<Node>>, opened: nat) -> bool
    decreases alts,
{
    alts.len() > 0 ==> alts_refer_back(alts.drop_last(), opened) && nodes_refer_back(
        alts.last(),
        opened + alts_group_ids(alts.drop_last()).len(),
    )
}

/// The numbers from 0 up to `n`.
pub open spec fn count_up(n: nat) -> Seq<nat> {
    Seq::new(n, |i: int| i as nat)
}

/// Whether a program is well formed: its nodes are, its groups are numbered
/// from 0 on in the order in which they open, and every back-reference
/// refers to a group that opens before it.
pub open spec fn program_wf(program: ProgramModel) -> bool {
    &&& nodes_wf(program.nodes, program.groups)
    &&& nodes_group_ids(program.nodes) == count_up(program.groups)
    &&& nodes_refer_back(program.nodes, 0)
}

} // verus!
