//! Pattern trees, programs, and the backtracking matcher.
use vstd::prelude::*;
use crate::captures::Captures;
use crate::parser::{parse_model, parse_patterns};
use crate::text::chars_of;
use crate::lemmas::{lemma_accepted_group, lemma_accepted_one, lemma_accepted_push, lemma_accepted_repeat, lemma_accepted_seq};
use crate::model::{Caps, Node, Outcome, ProgramModel, Rest, accepted, accepts_char, any_member_accepts, first_match, first_match_from, group_alts, is_digit, is_word_like, member_accepts, no_captures, node_outcomes, program_matches, rest_result, seq_outcomes, span_text};

verus! {

/// One node of a parsed pattern.
#[derive(Debug, PartialEq, Eq)]
pub enum Pattern {
    /// Exactly this code point.
    SingleCharacter(char),
    /// One or more of the inner pattern, greedy.
    Repeating(Box<Pattern>),
    /// Zero or one of the inner pattern, greedy.
    Optional(Box<Pattern>),
    /// One of `0` to `9`.
    Digit,
    /// One of `0` to `9`, `A` to `Z`, `a` to `z`, or `_`.
    WordLike,
    /// A character class: its members, and whether it is negated.
    Any(Vec<Pattern>, bool),
    /// Any code point but a line feed.
    Wildcard,
    /// A capturing group: its number, and its alternatives.
    Choice(usize, Vec<Vec<Pattern>>),
    /// The text that the group of this number captured.
    BackReference(usize),
}

/// The node that a pattern stands for.
pub open spec fn node_of(p: Pattern) -> Node
    decreases p,
{
    match p {
        Pattern::SingleCharacter(c) => Node::Literal(c),
        Pattern::Repeating(inner) => Node::Repeat(Box::new(node_of(*inner))),
        Pattern::Optional(inner) => Node::Optional(Box::new(node_of(*inner))),
        Pattern::Digit => Node::Digit,
        Pattern::WordLike => Node::WordLike,
        Pattern::Any(members, negated) => Node::CharClass(nodes_of(members@), negated),
        Pattern::Wildcard => Node::Wildcard,
        Pattern::Choice(id, alts) => Node::Group(id as nat, alts_of(alts@)),
        Pattern::BackReference(id) => Node::BackRef(id as nat),
    }
}

/// The nodes that a list of patterns stands for.
pub open spec fn nodes_of(ps: Seq<Pattern>) -> Seq<Node>
    decreases ps,
{
    Seq::new(
        ps.len(),
        |i: int|
            if 0 <= i < ps.len() {
                node_of(ps[i])
            } else {
                Node::Wildcard
            },
    )
}

/// The alternatives that a list of lists of patterns stands for.
pub open spec fn alts_of(alts: Seq<Vec<Pattern>>) -> Seq<Seq<Node>>
    decreases alts,
{
    Seq::new(
        alts.len(),
        |j: int|
            if 0 <= j < alts.len() {
                nodes_of(alts[j]@)
            } else {
                Seq::empty()
            },
    )
}

impl View for Pattern {
    type V = Node;

    open spec fn view(&self) -> Node {
        node_of(*self)
    }
}

/// A copy of a list of patterns.
pub fn copy_patterns(ps: &Vec<Pattern>) -> (copy: Vec<Pattern>)
    ensures
        nodes_of(copy@) == nodes_of(ps@),
    decreases ps,
{
    let mut copy: Vec<Pattern> = Vec::new();
    let mut i: usize = 0;
    while i < ps.len()
        invariant
            i <= ps.len(),
            copy@.len() == i,
            forall|k: int| 0 <= k < i ==> node_of(copy@[k]) == node_of(ps@[k]),
        decreases ps.len() - i,
    {
        copy.push(copy_pattern(&ps[i]));
        i += 1;
    }
    assert(nodes_of(copy@) =~= nodes_of(ps@));
    copy
}

/// A copy of a pattern.
#[verifier::loop_isolation(false)]
pub fn copy_pattern(p: &Pattern) -> (copy: Pattern)
    ensures
        copy@ == p@,
    decreases p,
{
    match p {
        Pattern::SingleCharacter(c) => Pattern::SingleCharacter(*c),
        Pattern::Repeating(inner) => Pattern::Repeating(Box::new(copy_pattern(inner))),
        Pattern::Optional(inner) => Pattern::Optional(Box::new(copy_pattern(inner))),
        Pattern::Digit => Pattern::Digit,
        Pattern::WordLike => Pattern::WordLike,
        Pattern::Any(members, negated) => Pattern::Any(copy_patterns(members), *negated),
        Pattern::Wildcard => Pattern::Wildcard,
        Pattern::Choice(id, alts) => {
            let mut copy: Vec<Vec<Pattern>> = Vec::new();
            let mut j: usize = 0;
            while j < alts.len()
                invariant
                    j <= alts.len(),
                    copy@.len() == j,
                    forall|k: int| 0 <= k < j ==> nodes_of(copy@[k]@) == nodes_of(alts@[k]@),
                decreases alts.len() - j,
            {
                copy.push(copy_patterns(&alts[j]));
                j += 1;
            }
            assert(alts_of(copy@) =~= alts_of(alts@));
            Pattern::Choice(*id, copy)
        },
        Pattern::BackReference(id) => Pattern::BackReference(*id),
    }
}

impl Clone for Pattern {
    fn clone(&self) -> (copy: Pattern)
        ensures
            copy@ == self@,
    {
        copy_pattern(self)
    }
}

/// A parsed pattern: its nodes in order, whether it is anchored at the start
/// and at the end of the subject, and the number of its capturing groups.
#[derive(Debug, PartialEq, Eq)]
pub struct Program {
    pub nodes: Vec<Pattern>,
    pub anchored_start: bool,
    pub anchored_end: bool,
    pub groups: usize,
}

impl Clone for Program {
    fn clone(&self) -> (copy: Program)
        ensures
            copy@ == self@,
    {
        Program {
            nodes: copy_patterns(&self.nodes),
            anchored_start: self.anchored_start,
            anchored_end: self.anchored_end,
            groups: self.groups,
        }
    }
}

impl View for Program {
    type V = ProgramModel;

    open spec fn view(&self) -> ProgramModel {
        ProgramModel {
            nodes: nodes_of(self.nodes@),
            anchored_start: self.anchored_start,
            anchored_end: self.anchored_end,
            groups: self.groups as nat,
        }
    }
}

/// What remains to be matched after a node: the tail of the sequence the node
/// stands in, and what follows the groups and repetitions around it.
pub enum Continuation<'a> {
    /// Nothing remains. With `at_end` the match has to end at the end of the
    /// subject.
    Accept { at_end: bool },
    /// The nodes from index `from` on, then `then`.
    Sequence { nodes: &'a Vec<Pattern>, from: usize, then: &'a Continuation<'a> },
    /// Group `id`, which started at `start`, ends here; then `then`.
    CloseGroup { id: usize, start: usize, then: &'a Continuation<'a> },
    /// One repetition of the inner pattern of the repetition `node`, which
    /// started at `since`, ends here; then more repetitions or `then`.
    RepeatAgain { node: &'a Pattern, since: usize, then: &'a Continuation<'a> },
}

/// The nodes that the patterns from index `from` on stand for.
pub open spec fn tail_of(ps: Seq<Pattern>, from: int) -> Seq<Node> {
    if 0 <= from <= ps.len() {
        nodes_of(ps).skip(from)
    } else {
        Seq::empty()
    }
}

/// The rest that a continuation stands for.
pub open spec fn rest_of(k: Continuation) -> Rest
    decreases k,
{
    match k {
        Continuation::Accept { at_end } => Rest::Accept(at_end),
        Continuation::Sequence { nodes, from, then } => Rest::Sequence(
            tail_of(nodes@, from as int),
            Box::new(rest_of(*then)),
        ),
        Continuation::CloseGroup { id, start, then } => Rest::CloseGroup(
            id as nat,
            start as int,
            Box::new(rest_of(*then)),
        ),
        Continuation::RepeatAgain { node, since, then } => Rest::RepeatAgain(
            node_of(*node),
            since as int,
            Box::new(rest_of(*then)),
        ),
    }
}

impl<'a> View for Continuation<'a> {
    type V = Rest;

    open spec fn view(&self) -> Rest {
        rest_of(*self)
    }
}

/// How a matcher reports `expected`: the end of the match and the captures of
/// the outcome, or no match and the captures as they were.
pub open spec fn reported(
    expected: Option<Outcome>,
    r: Option<usize>,
    before: Caps,
    after: Caps,
) -> bool {
    match expected {
        Some(o) => r is Some && r->0 as int == o.end && after == o.caps,
        None => r is None && after == before,
    }
}

/// A bound on the work that matching a node takes before the position moves.
pub open spec fn weight(n: Node) -> nat
    decreases n,
{
    match n {
        Node::Optional(inner) => 1 + weight(*inner),
        Node::Repeat(inner) => 2 + weight(*inner),
        Node::Group(id, alts) => 2 + alts_weight(alts),
        _ => 1,
    }
}

/// The weight of the alternatives of a group.
pub open spec fn alts_weight(alts: Seq<Seq<Node>>) -> nat
    decreases alts,
{
    if alts.len() == 0 {
        0
    } else {
        1 + seq_weight(alts[0]) + alts_weight(alts.drop_first())
    }
}

/// The weight of a sequence of nodes.
pub open spec fn seq_weight(nodes: Seq<Node>) -> nat
    decreases nodes,
{
    if nodes.len() == 0 {
        1
    } else {
        2 + weight(nodes[0]) + seq_weight(nodes.drop_first())
    }
}

/// The weight of what remains at `pos`. A repetition that has moved on since
/// it started weighs what repeating it weighs.
pub open spec fn rest_weight(k: Rest, pos: int) -> nat
    decreases k,
{
    match k {
        Rest::Accept(_) => 0,
        Rest::Sequence(nodes, then) => 1 + seq_weight(nodes) + rest_weight(*then, pos),
        Rest::CloseGroup(_, _, then) => 1 + rest_weight(*then, pos),
        Rest::RepeatAgain(rep, since, then) => 1 + (if since < pos {
            weight(rep)
        } else {
            0
        }) + rest_weight(*then, pos),
    }
}

proof fn lemma_alts_weight(alts: Seq<Seq<Node>>, j: int)
    requires
        0 <= j < alts.len(),
    ensures
        1 + seq_weight(alts[j]) <= alts_weight(alts),
    decreases j,
{
    if j > 0 {
        lemma_alts_weight(alts.drop_first(), j - 1);
    }
}

/// Whether `c` is one of `0` to `9`.
pub fn is_digit_char(c: char) -> (r: bool)
    ensures
        r == is_digit(c),
{
    '0' <= c && c <= '9'
}

/// Whether `c` is one of `0` to `9`, `A` to `Z`, `a` to `z`, or `_`.
pub fn is_word_char(c: char) -> (r: bool)
    ensures
        r == is_word_like(c),
{
    is_digit_char(c) || ('a' <= c && c <= 'z') || ('A' <= c && c <= 'Z') || c == '_'
}

/// Whether `member`, as a member of a character class, accepts `c`.
pub fn member_matches(member: &Pattern, c: char) -> (r: bool)
    ensures
        r == member_accepts(member@, c),
{
    match member {
        Pattern::SingleCharacter(x) => *x == c,
        Pattern::Digit => is_digit_char(c),
        Pattern::WordLike => is_word_char(c),
        _ => false,
    }
}

/// Whether some member of a character class accepts `c`: what a positive
/// class asks for.
pub fn match_any(members: &Vec<Pattern>, c: char) -> (r: bool)
    ensures
        r == any_member_accepts(nodes_of(members@), c),
{
    let mut i: usize = 0;
    while i < members.len()
        invariant
            i <= members.len(),
            forall|j: int| 0 <= j < i ==> !member_accepts(#[trigger] nodes_of(members@)[j], c),
        decreases members.len() - i,
    {
        if member_matches(&members[i], c) {
            assert(member_accepts(nodes_of(members@)[i as int], c));
            return true;
        }
        i += 1;
    }
    false
}

/// Whether no member of a character class accepts `c`: what a negated class
/// asks for.
pub fn match_none(members: &Vec<Pattern>, c: char) -> (r: bool)
    ensures
        r == !any_member_accepts(nodes_of(members@), c),
{
    !match_any(members, c)
}

/// The subject from `from` up to `to`, or nothing if they are not in order.
fn copy_span(subject: &Vec<char>, from: usize, to: usize) -> (text: Vec<char>)
    ensures
        text@ == span_text(subject@, from as int, to as int),
{
    let mut text: Vec<char> = Vec::new();
    if from <= to && to <= subject.len() {
        let mut i: usize = from;
        while i < to
            invariant
                from <= i <= to <= subject.len(),
                text@ == subject@.subrange(from as int, i as int),
            decreases to - i,
        {
            text.push(subject[i]);
            assert(subject@.subrange(from as int, i + 1) =~= subject@.subrange(from as int, i as int).push(
                subject@[i as int],
            ));
            i += 1;
        }
    }
    text
}

impl Pattern {
    /// The pattern that matches exactly the code point `c`.
    pub fn single_character(c: char) -> (p: Pattern)
        ensures
            p == Pattern::SingleCharacter(c),
            p@ == Node::Literal(c),
    {
        Pattern::SingleCharacter(c)
    }

    /// One or more of `inner`, greedy.
    pub fn repeating(inner: Pattern) -> (p: Pattern)
        ensures
            p == Pattern::Repeating(Box::new(inner)),
            p@ == Node::Repeat(Box::new(inner@)),
    {
        Pattern::Repeating(Box::new(inner))
    }

    /// Zero or one of `inner`, greedy.
    pub fn optional(inner: Pattern) -> (p: Pattern)
        ensures
            p == Pattern::Optional(Box::new(inner)),
            p@ == Node::Optional(Box::new(inner@)),
    {
        Pattern::Optional(Box::new(inner))
    }

    /// The pattern that matches any code point but a line feed.
    pub fn wildcard() -> (p: Pattern)
        ensures
            p == Pattern::Wildcard,
            p@ == Node::Wildcard,
    {
        Pattern::Wildcard
    }

    /// The pattern that matches one of `0` to `9`.
    pub fn digit() -> (p: Pattern)
        ensures
            p == Pattern::Digit,
            p@ == Node::Digit,
    {
        Pattern::Digit
    }

    /// The pattern that matches one of `0` to `9`, `A` to `Z`, `a` to `z`, or
    /// `_`.
    pub fn word_like() -> (p: Pattern)
        ensures
            p == Pattern::WordLike,
            p@ == Node::WordLike,
    {
        Pattern::WordLike
    }

    /// A positive character class without members, to which members are then
    /// added. As it stands it accepts nothing.
    pub fn any() -> (p: Pattern)
        ensures
            p matches Pattern::Any(members, negated) && members@.len() == 0 && !negated,
            p@ == Node::CharClass(Seq::empty(), false),
    {
        let members: Vec<Pattern> = Vec::new();
        assert(nodes_of(members@) =~= Seq::empty());
        Pattern::Any(members, false)
    }

    /// The capturing group number `id` with the alternatives `choices`.
    pub fn choice(id: usize, choices: Vec<Vec<Pattern>>) -> (p: Pattern)
        ensures
            p == Pattern::Choice(id, choices),
            p@ == Node::Group(id as nat, alts_of(choices@)),
    {
        Pattern::Choice(id, choices)
    }

    /// The pattern that matches the text which group number `n` captured.
    pub fn backreference(n: usize) -> (p: Pattern)
        ensures
            p == Pattern::BackReference(n),
            p@ == Node::BackRef(n as nat),
    {
        Pattern::BackReference(n)
    }

    /// Whether this pattern, which consumes exactly one code point, accepts
    /// `c`. A pattern that does not consume exactly one code point accepts
    /// nothing.
    pub fn accepts(&self, c: char) -> (r: bool)
        ensures
            r == accepts_char(self@, c),
    {
        match self {
            Pattern::SingleCharacter(x) => *x == c,
            Pattern::Digit => is_digit_char(c),
            Pattern::WordLike => is_word_char(c),
            Pattern::Wildcard => c != '\n',
            Pattern::Any(members, negated) => {
                if *negated {
                    match_none(members, c)
                } else {
                    match_any(members, c)
                }
            },
            _ => false,
        }
    }

    /// Matches this pattern at `pos` and then `rest`, trying the ways in which
    /// the pattern can match in order of preference and taking the first from
    /// which `rest` matches too. Returns where the whole match ends, with the
    /// captures of that match in `captures`. Without a match the captures are
    /// left as they were.
    #[verifier::loop_isolation(false)]
    pub fn matches(
        &self,
        subject: &Vec<char>,
        pos: usize,
        captures: &mut Captures,
        rest: &Continuation<'_>,
    ) -> (r: Option<usize>)
        ensures
            reported(
                accepted(node_outcomes(self@, subject@, pos as int, old(captures)@), rest@, subject@),
                r,
                old(captures)@,
                final(captures)@,
            ),
        decreases subject.len() - pos, weight(self@) + rest_weight(rest@, pos as int),
    {
        let ghost s = subject@;
        let ghost caps = captures@;
        match self {
            Pattern::Optional(inner) => {
                proof {
                    lemma_accepted_push(
                        node_outcomes(inner@, s, pos as int, caps),
                        Outcome { end: pos as int, caps },
                        rest@,
                        s,
                    );
                }
                let r = inner.matches(subject, pos, captures, rest);
                if r.is_some() {
                    r
                } else {
                    resume(rest, subject, pos, captures)
                }
            },
            Pattern::Repeating(inner) => {
                let again = Continuation::RepeatAgain { node: self, since: pos, then: rest };
                proof {
                    lemma_accepted_repeat(inner@, rest@, s, pos as int, caps);
                }
                inner.matches(subject, pos, captures, &again)
            },
            Pattern::Choice(id, alts) => {
                let close = Continuation::CloseGroup { id: *id, start: pos, then: rest };
                let ghost all = alts_of(alts@);
                let mut j: usize = 0;
                assert(all.skip(0) =~= all);
                while j < alts.len()
                    invariant
                        j <= alts.len(),
                        captures@ == caps,
                        accepted(group_alts(*id as nat, all, s, pos as int, caps), rest@, s) == accepted(
                            group_alts(*id as nat, all.skip(j as int), s, pos as int, caps),
                            rest@,
                            s,
                        ),
                    decreases alts.len() - j,
                {
                    proof {
                        lemma_accepted_group(*id as nat, all.skip(j as int), rest@, s, pos as int, caps);
                        assert(all.skip(j as int)[0] == nodes_of(alts[j as int]@));
                        assert(all.skip(j as int).drop_first() =~= all.skip(j + 1));
                        assert(tail_of(alts[j as int]@, 0) =~= nodes_of(alts[j as int]@));
                        lemma_alts_weight(all, j as int);
                    }
                    let r = find_match(&alts[j], 0, subject, pos, captures, &close);
                    if r.is_some() {
                        return r;
                    }
                    j += 1;
                }
                proof {
                    lemma_accepted_group(*id as nat, all.skip(j as int), rest@, s, pos as int, caps);
                }
                None
            },
            Pattern::BackReference(id) => {
                match captures.length_if_here(*id, subject, pos) {
                    Some(n) => {
                        proof {
                            lemma_accepted_one(Outcome { end: pos + n, caps }, rest@, s);
                        }
                        resume(rest, subject, pos + n, captures)
                    },
                    None => None,
                }
            },
            _ => {
                if pos < subject.len() && self.accepts(subject[pos]) {
                    proof {
                        lemma_accepted_one(Outcome { end: pos + 1, caps }, rest@, s);
                    }
                    resume(rest, subject, pos + 1, captures)
                } else {
                    None
                }
            },
        }
    }
}

/// Matches the patterns of `nodes` from index `from` on, one after the other,
/// at `pos`, and then `rest`. Returns where the whole match ends, with the
/// captures of that match in `captures`. Without a match the captures are left
/// as they were.
pub fn find_match(
    nodes: &Vec<Pattern>,
    from: usize,
    subject: &Vec<char>,
    pos: usize,
    captures: &mut Captures,
    rest: &Continuation<'_>,
) -> (r: Option<usize>)
    ensures
        reported(
            accepted(
                seq_outcomes(tail_of(nodes@, from as int), subject@, pos as int, old(captures)@),
                rest@,
                subject@,
            ),
            r,
            old(captures)@,
            final(captures)@,
        ),
    decreases subject.len() - pos, seq_weight(tail_of(nodes@, from as int)) + rest_weight(rest@, pos as int),
{
    proof {
        lemma_accepted_seq(tail_of(nodes@, from as int), rest@, subject@, pos as int, captures@);
    }
    if from >= nodes.len() {
        resume(rest, subject, pos, captures)
    } else {
        let then = Continuation::Sequence { nodes, from: from + 1, then: rest };
        proof {
            assert(tail_of(nodes@, from as int)[0] == nodes[from as int]@);
            assert(tail_of(nodes@, from as int).drop_first() =~= tail_of(nodes@, from + 1));
        }
        nodes[from].matches(subject, pos, captures, &then)
    }
}

/// Matches what remains, `rest`, at `pos`. Returns where the whole match ends,
/// with the captures of that match in `captures`. Without a match the captures
/// are left as they were.
pub fn resume(rest: &Continuation<'_>, subject: &Vec<char>, pos: usize, captures: &mut Captures) -> (r:
    Option<usize>)
    ensures
        reported(
            rest_result(rest@, subject@, pos as int, old(captures)@),
            r,
            old(captures)@,
            final(captures)@,
        ),
    decreases subject.len() - pos, rest_weight(rest@, pos as int),
{
    let ghost s = subject@;
    let ghost caps = captures@;
    match rest {
        Continuation::Accept { at_end } => {
            if !*at_end || pos == subject.len() {
                Some(pos)
            } else {
                None
            }
        },
        Continuation::Sequence { nodes, from, then } => find_match(
            nodes,
            *from,
            subject,
            pos,
            captures,
            then,
        ),
        Continuation::CloseGroup { id, start, then } => {
            let text = copy_span(subject, *start, pos);
            let held = captures.swap_slot(*id, Some(text));
            let r = resume(then, subject, pos, captures);
            if r.is_none() {
                let _ = captures.swap_slot(*id, held);
                assert(captures@ =~= caps);
            }
            r
        },
        Continuation::RepeatAgain { node, since, then } => {
            let ghost o = Outcome { end: pos as int, caps };
            if *since < pos && pos <= subject.len() {
                proof {
                    lemma_accepted_push(node_outcomes(node@, s, pos as int, caps), o, then@, s);
                }
                let r = node.matches(subject, pos, captures, then);
                if r.is_some() {
                    return r;
                }
            } else {
                proof {
                    lemma_accepted_one(o, then@, s);
                }
            }
            resume(then, subject, pos, captures)
        },
    }
}

/// A match of a program in a subject: where it starts and ends, counted in
/// code points, and what each group captured.
#[derive(Debug)]
pub struct Match {
    pub start: usize,
    pub end: usize,
    pub captures: Captures,
}

/// Whether `found` is the match `expected`.
pub open spec fn is_match(found: Option<Match>, expected: Option<(int, Outcome)>) -> bool {
    match expected {
        Some((start, o)) => found is Some && found->0.start as int == start && found->0.end as int
            == o.end && found->0.captures@ == o.caps,
        None => found is None,
    }
}

/// Searches `subject` for the leftmost match of `program`: the first position
/// at which the nodes match, in their order of preference, such that an
/// end-anchored program ends at the end of the subject. A start-anchored
/// program is tried at position 0 only; any other at every position up to and
/// including the end of the subject.
pub fn search(subject: &Vec<char>, program: &Program) -> (found: Option<Match>)
    ensures
        is_match(found, first_match(program@, subject@)),
{
    let accept = Continuation::Accept { at_end: program.anchored_end };
    let mut captures = Captures::new(program.groups);
    let mut start: usize = 0;
    loop
        invariant
            start <= subject.len(),
            captures@ == no_captures(program.groups as nat),
            accept@ == Rest::Accept(program.anchored_end),
            program.anchored_start ==> start == 0,
            !program.anchored_start ==> first_match(program@, subject@) == first_match_from(
                program@,
                subject@,
                start as int,
            ),
        decreases subject.len() - start,
    {
        proof {
            assert(tail_of(program.nodes@, 0) =~= program@.nodes);
        }
        let r = find_match(&program.nodes, 0, subject, start, &mut captures, &accept);
        match r {
            Some(end) => {
                return Some(Match { start, end, captures });
            },
            None => {},
        }
        if program.anchored_start {
            return None;
        }
        if start >= subject.len() {
            assert(first_match_from(program@, subject@, start + 1) is None);
            return None;
        }
        start += 1;
    }
}

/// Where the leftmost match of `program` in `subject` starts and ends, counted
/// in code points.
pub fn match_patterns(subject: &Vec<char>, program: &Program) -> (r: Option<(usize, usize)>)
    ensures
        match (r, first_match(program@, subject@)) {
            (Some(span), Some((start, o))) => span.0 as int == start && span.1 as int == o.end,
            (None, None) => true,
            _ => false,
        },
{
    match search(subject, program) {
        Some(found) => Some((found.start, found.end)),
        None => None,
    }
}

/// The line without the line feed that may end it.
pub open spec fn line_of(s: Seq<char>) -> Seq<char> {
    if s.len() > 0 && s.last() == '\n' {
        s.drop_last()
    } else {
        s
    }
}

/// Whether the pattern `p` is accepted by the parser and its program matches
/// somewhere in the subject `s`.
pub open spec fn pattern_matches(p: Seq<char>, s: Seq<char>) -> bool {
    parse_model(p) is Ok && program_matches(parse_model(p)->Ok_0, s)
}

/// Whether `pattern` matches somewhere in the line. A line feed at the end of
/// the line is not part of the subject. A pattern that the parser refuses
/// matches nothing.
pub fn match_pattern(input_line: &str, pattern: &str) -> (r: bool)
    ensures
        r == pattern_matches(pattern@, line_of(input_line@)),
{
    match parse_patterns(pattern) {
        Err(_) => false,
        Ok(program) => {
            let mut subject = chars_of(input_line);
            let n = subject.len();
            if n > 0 && subject[n - 1] == '\n' {
                subject.pop();
                assert(subject@ =~= line_of(input_line@));
            }
            match_patterns(&subject, &program).is_some()
        },
    }
}

} // verus!
