//! The pattern parser: a scan over the code points of a pattern that builds
//! the program.
use vstd::prelude::*;
use crate::model::{Node, ProgramModel, is_quantifier, program_wf};
use crate::wellformed::lemma_parse_wf;
use crate::patterns::{Pattern, Program, alts_of, node_of, nodes_of};

verus! {

/// Why a pattern is refused.
#[derive(Clone, Copy, Debug, PartialEq, Eq, Structural)]
pub enum ParseError {
    /// A `(` without its `)`.
    UnbalancedParenthesis,
    /// A `[` without its `]`.
    UnbalancedBracket,
    /// A back-reference to a group that has not been opened before it.
    BadBackReference,
    /// A `\` at the end of the pattern.
    DanglingEscape,
    /// A `+` or `?` with no node before it.
    NothingToQuantify,
    /// A character class without members.
    EmptyClass,
}

/// One nesting level of the scan: the top level of the pattern, or an open
/// group.
pub ghost struct Level {
    /// The number of the open group. Not used at the top level.
    pub id: nat,
    /// The alternatives that a `|` has closed.
    pub done: Seq<Seq<Node>>,
    /// The nodes of the alternative being read.
    pub current: Seq<Node>,
}

/// An open character class.
pub ghost struct ClassModel {
    pub members: Seq<Node>,
    pub negated: bool,
}

/// The state of the scan.
pub ghost struct ScanModel {
    /// The levels around the innermost one, outermost first.
    pub outer: Seq<Level>,
    /// The innermost level.
    pub top: Level,
    /// The open character class, if the scan is inside one.
    pub class: Option<ClassModel>,
    /// Whether the last code point was an unescaped `\`.
    pub escaping: bool,
    /// The number of groups opened so far.
    pub groups: nat,
}

/// The state before the first code point.
pub open spec fn initial() -> ScanModel {
    ScanModel {
        outer: Seq::empty(),
        top: Level { id: 0, done: Seq::empty(), current: Seq::empty() },
        class: None,
        escaping: false,
        groups: 0,
    }
}

/// The state with `n` added to the alternative being read.
pub open spec fn emit(st: ScanModel, n: Node) -> ScanModel {
    ScanModel { top: Level { current: st.top.current.push(n), ..st.top }, ..st }
}

/// Whether `c` is one of `1` to `9`.
pub open spec fn is_group_digit(c: char) -> bool {
    '1' <= c <= '9'
}

/// The group that `\1` to `\9` refer to: groups are numbered from 0.
pub open spec fn group_of_digit(c: char) -> nat {
    (c as nat - '1' as nat) as nat
}

/// What a member of a character class is: `\d` and `\w` keep their meaning;
/// any other code point, escaped or not, stands for itself.
pub open spec fn class_member(escaped: bool, c: char) -> Node {
    if escaped && c == 'd' {
        Node::Digit
    } else if escaped && c == 'w' {
        Node::WordLike
    } else {
        Node::Literal(c)
    }
}

/// The step for a code point inside a character class. `]` closes the class,
/// which must have members. The first `^` negates the class.
pub open spec fn step_in_class(st: ScanModel, class: ClassModel, c: char) -> Result<ScanModel, ParseError> {
    if c == ']' {
        if class.members.len() == 0 {
            Err(ParseError::EmptyClass)
        } else {
            Ok(
                emit(
                    ScanModel { class: None, escaping: false, ..st },
                    Node::CharClass(class.members, class.negated),
                ),
            )
        }
    } else if st.escaping {
        Ok(
            ScanModel {
                class: Some(ClassModel { members: class.members.push(class_member(true, c)), ..class }),
                escaping: false,
                ..st
            },
        )
    } else if c == '\\' {
        Ok(ScanModel { escaping: true, ..st })
    } else if c == '^' && class.members.len() == 0 && !class.negated {
        Ok(ScanModel { class: Some(ClassModel { negated: true, ..class }), ..st })
    } else {
        Ok(
            ScanModel {
                class: Some(ClassModel { members: class.members.push(class_member(false, c)), ..class }),
                ..st
            },
        )
    }
}

/// The step for a code point after an unescaped `\`, outside a class.
pub open spec fn step_escaped(st: ScanModel, c: char) -> Result<ScanModel, ParseError> {
    let st = ScanModel { escaping: false, ..st };
    if c == 'd' {
        Ok(emit(st, Node::Digit))
    } else if c == 'w' {
        Ok(emit(st, Node::WordLike))
    } else if is_group_digit(c) {
        if group_of_digit(c) < st.groups {
            Ok(emit(st, Node::BackRef(group_of_digit(c))))
        } else {
            Err(ParseError::BadBackReference)
        }
    } else {
        Ok(emit(st, Node::Literal(c)))
    }
}

/// The step for `+` (with `repeat`) or `?`: the last node of the alternative
/// being read becomes the inner node of a quantifier. After a quantifier the
/// operator stands for itself. With no node before it, it is refused.
pub open spec fn step_quantifier(st: ScanModel, c: char, repeat: bool) -> Result<ScanModel, ParseError> {
    if st.top.current.len() == 0 {
        Err(ParseError::NothingToQuantify)
    } else if is_quantifier(st.top.current.last()) {
        Ok(emit(st, Node::Literal(c)))
    } else {
        let inner = st.top.current.last();
        let node = if repeat {
            Node::Repeat(Box::new(inner))
        } else {
            Node::Optional(Box::new(inner))
        };
        Ok(ScanModel { top: Level { current: st.top.current.drop_last().push(node), ..st.top }, ..st })
    }
}

/// The step for an unescaped code point outside a class.
pub open spec fn step_plain(st: ScanModel, c: char) -> Result<ScanModel, ParseError> {
    if c == '\\' {
        Ok(ScanModel { escaping: true, ..st })
    } else if c == '[' {
        Ok(ScanModel { class: Some(ClassModel { members: Seq::empty(), negated: false }), ..st })
    } else if c == '.' {
        Ok(emit(st, Node::Wildcard))
    } else if c == '+' {
        step_quantifier(st, c, true)
    } else if c == '?' {
        step_quantifier(st, c, false)
    } else if c == '(' {
        Ok(
            ScanModel {
                outer: st.outer.push(st.top),
                top: Level { id: st.groups, done: Seq::empty(), current: Seq::empty() },
                groups: st.groups + 1,
                ..st
            },
        )
    } else if c == '|' && st.outer.len() > 0 {
        Ok(
            ScanModel {
                top: Level { done: st.top.done.push(st.top.current), current: Seq::empty(), ..st.top },
                ..st
            },
        )
    } else if c == ')' && st.outer.len() > 0 {
        Ok(
            emit(
                ScanModel { outer: st.outer.drop_last(), top: st.outer.last(), ..st },
                Node::Group(st.top.id, st.top.done.push(st.top.current)),
            ),
        )
    } else {
        Ok(emit(st, Node::Literal(c)))
    }
}

/// The state after one more code point, or why the pattern is refused there.
pub open spec fn step(st: ScanModel, c: char) -> Result<ScanModel, ParseError> {
    match st.class {
        Some(class) => step_in_class(st, class, c),
        None => if st.escaping {
            step_escaped(st, c)
        } else {
            step_plain(st, c)
        },
    }
}

/// The state after the first `n` code points of `p`, or the first refusal.
pub open spec fn scan(p: Seq<char>, n: int) -> Result<ScanModel, ParseError>
    decreases n,
{
    if n <= 0 {
        Ok(initial())
    } else {
        match scan(p, n - 1) {
            Ok(st) => step(st, p[n - 1]),
            Err(e) => Err(e),
        }
    }
}

/// The nodes of the pattern once the scan has reached its end: nothing may be
/// left open.
pub open spec fn finish(st: ScanModel) -> Result<Seq<Node>, ParseError> {
    if st.escaping {
        Err(ParseError::DanglingEscape)
    } else if st.class is Some {
        Err(ParseError::UnbalancedBracket)
    } else if st.outer.len() > 0 {
        Err(ParseError::UnbalancedParenthesis)
    } else {
        Ok(st.top.current)
    }
}

/// Whether the code point at index `n` of `p` follows an unescaped `\`.
pub open spec fn escape_pending(p: Seq<char>, n: int) -> bool
    decreases n,
{
    0 < n <= p.len() && p[n - 1] == '\\' && !escape_pending(p, n - 1)
}

/// Whether `p` starts with the anchor `^`.
pub open spec fn starts_with_anchor(p: Seq<char>) -> bool {
    p.len() > 0 && p[0] == '^'
}

/// Whether `p` ends with the anchor `$`: an unescaped `$` in the last place.
pub open spec fn ends_with_anchor(p: Seq<char>) -> bool {
    p.len() > 0 && p.last() == '$' && !escape_pending(p, p.len() - 1)
}

/// The pattern without its anchors.
pub open spec fn unanchored(p: Seq<char>) -> Seq<char> {
    let body = if starts_with_anchor(p) {
        p.skip(1)
    } else {
        p
    };
    if ends_with_anchor(body) {
        body.drop_last()
    } else {
        body
    }
}

/// Whether `p`, which may start with `^`, ends with the anchor `$`.
pub open spec fn anchored_at_end(p: Seq<char>) -> bool {
    ends_with_anchor(
        if starts_with_anchor(p) {
            p.skip(1)
        } else {
            p
        },
    )
}

/// The program that the pattern `p` stands for, or why `p` is refused.
///
/// A `^` in the first place and an unescaped `$` in the last place are the
/// anchors. What stands between them is scanned code point by code point.
pub open spec fn parse_model(p: Seq<char>) -> Result<ProgramModel, ParseError> {
    let core = unanchored(p);
    match scan(core, core.len() as int) {
        Err(e) => Err(e),
        Ok(st) => match finish(st) {
            Err(e) => Err(e),
            Ok(nodes) => Ok(
                ProgramModel {
                    nodes,
                    anchored_start: starts_with_anchor(p),
                    anchored_end: anchored_at_end(p),
                    groups: st.groups,
                },
            ),
        },
    }
}

/// One nesting level of the scan, as the parser holds it.
struct Frame {
    id: usize,
    done: Vec<Vec<Pattern>>,
    current: Vec<Pattern>,
}

/// An open character class, as the parser holds it.
struct ClassBuf {
    members: Vec<Pattern>,
    negated: bool,
}

/// The state of the scan, as the parser holds it.
struct Scanner {
    outer: Vec<Frame>,
    top: Frame,
    class: Option<ClassBuf>,
    escaping: bool,
    groups: usize,
}

spec fn level_of(f: Frame) -> Level {
    Level { id: f.id as nat, done: alts_of(f.done@), current: nodes_of(f.current@) }
}

spec fn levels_of(fs: Seq<Frame>) -> Seq<Level> {
    Seq::new(fs.len(), |i: int| level_of(fs[i]))
}

spec fn class_of(class: Option<ClassBuf>) -> Option<ClassModel> {
    match class {
        Some(buf) => Some(ClassModel { members: nodes_of(buf.members@), negated: buf.negated }),
        None => None,
    }
}

impl View for Scanner {
    type V = ScanModel;

    closed spec fn view(&self) -> ScanModel {
        ScanModel {
            outer: levels_of(self.outer@),
            top: level_of(self.top),
            class: class_of(self.class),
            escaping: self.escaping,
            groups: self.groups as nat,
        }
    }
}

proof fn lemma_nodes_push(ps: Seq<Pattern>, p: Pattern)
    ensures
        nodes_of(ps.push(p)) == nodes_of(ps).push(node_of(p)),
{
    assert(nodes_of(ps.push(p)) =~= nodes_of(ps).push(node_of(p)));
}

proof fn lemma_nodes_drop_last(ps: Seq<Pattern>)
    requires
        ps.len() > 0,
    ensures
        nodes_of(ps.drop_last()) == nodes_of(ps).drop_last(),
        nodes_of(ps).last() == node_of(ps.last()),
{
    assert(nodes_of(ps.drop_last()) =~= nodes_of(ps).drop_last());
}

proof fn lemma_alts_push(alts: Seq<Vec<Pattern>>, alt: Vec<Pattern>)
    ensures
        alts_of(alts.push(alt)) == alts_of(alts).push(nodes_of(alt@)),
{
    assert(alts_of(alts.push(alt)) =~= alts_of(alts).push(nodes_of(alt@)));
}

proof fn lemma_levels_push(fs: Seq<Frame>, f: Frame)
    ensures
        levels_of(fs.push(f)) == levels_of(fs).push(level_of(f)),
{
    assert(levels_of(fs.push(f)) =~= levels_of(fs).push(level_of(f)));
}

proof fn lemma_levels_drop_last(fs: Seq<Frame>)
    requires
        fs.len() > 0,
    ensures
        levels_of(fs.drop_last()) == levels_of(fs).drop_last(),
        levels_of(fs).last() == level_of(fs.last()),
{
    assert(levels_of(fs.drop_last()) =~= levels_of(fs).drop_last());
}

/// Whether `r` is the scan's state or refusal `m`.
spec fn agrees(r: Result<Scanner, ParseError>, m: Result<ScanModel, ParseError>) -> bool {
    match m {
        Ok(st) => r is Ok && r->Ok_0@ == st,
        Err(e) => r is Err && r->Err_0 == e,
    }
}

fn digit_group(c: char) -> (id: usize)
    requires
        is_group_digit(c),
    ensures
        id == group_of_digit(c),
{
    (c as u32 - '1' as u32) as usize
}

impl Scanner {
    fn new() -> (st: Scanner)
        ensures
            st@ == initial(),
    {
        let st = Scanner {
            outer: Vec::new(),
            top: Frame { id: 0, done: Vec::new(), current: Vec::new() },
            class: None,
            escaping: false,
            groups: 0,
        };
        assert(st@.outer =~= Seq::empty());
        assert(st@.top.done =~= Seq::empty());
        assert(st@.top.current =~= Seq::empty());
        st
    }

    /// Adds `p` to the alternative being read.
    fn emit(self, p: Pattern) -> (st: Scanner)
        ensures
            st@ == emit(self@, p@),
    {
        let Scanner { outer, top, class, escaping, groups } = self;
        let Frame { id, done, mut current } = top;
        proof {
            lemma_nodes_push(current@, p);
        }
        current.push(p);
        Scanner { outer, top: Frame { id, done, current }, class, escaping, groups }
    }

    fn step_in_class(self, buf: ClassBuf, c: char) -> (r: Result<Scanner, ParseError>)
        requires
            self.class is None,
        ensures
            agrees(
                r,
                step_in_class(
                    ScanModel { class: class_of(Some(buf)), ..self@ },
                    class_of(Some(buf))->0,
                    c,
                ),
            ),
    {
        let ClassBuf { mut members, negated } = buf;
        let Scanner { outer, top, class, escaping, groups } = self;
        if c == ']' {
            if members.len() == 0 {
                Err(ParseError::EmptyClass)
            } else {
                let st = Scanner { outer, top, class: None, escaping: false, groups };
                Ok(st.emit(Pattern::Any(members, negated)))
            }
        } else if escaping {
            let member = if c == 'd' {
                Pattern::Digit
            } else if c == 'w' {
                Pattern::WordLike
            } else {
                Pattern::SingleCharacter(c)
            };
            proof {
                lemma_nodes_push(members@, member);
            }
            members.push(member);
            Ok(Scanner { outer, top, class: Some(ClassBuf { members, negated }), escaping: false, groups })
        } else if c == '\\' {
            Ok(Scanner { outer, top, class: Some(ClassBuf { members, negated }), escaping: true, groups })
        } else if c == '^' && members.len() == 0 && !negated {
            Ok(Scanner { outer, top, class: Some(ClassBuf { members, negated: true }), escaping, groups })
        } else {
            proof {
                lemma_nodes_push(members@, Pattern::SingleCharacter(c));
            }
            members.push(Pattern::SingleCharacter(c));
            Ok(Scanner { outer, top, class: Some(ClassBuf { members, negated }), escaping, groups })
        }
    }

    fn step_escaped(self, c: char) -> (r: Result<Scanner, ParseError>)
        requires
            self.class is None,
            self.escaping,
        ensures
            agrees(r, step_escaped(self@, c)),
    {
        let Scanner { outer, top, class, escaping, groups } = self;
        let st = Scanner { outer, top, class, escaping: false, groups };
        if c == 'd' {
            Ok(st.emit(Pattern::Digit))
        } else if c == 'w' {
            Ok(st.emit(Pattern::WordLike))
        } else if '1' <= c && c <= '9' {
            let id = digit_group(c);
            if id < groups {
                Ok(st.emit(Pattern::BackReference(id)))
            } else {
                Err(ParseError::BadBackReference)
            }
        } else {
            Ok(st.emit(Pattern::SingleCharacter(c)))
        }
    }

    fn step_quantifier(self, c: char, repeat: bool) -> (r: Result<Scanner, ParseError>)
        ensures
            agrees(r, step_quantifier(self@, c, repeat)),
    {
        let Scanner { outer, top, class, escaping, groups } = self;
        let Frame { id, done, mut current } = top;
        let ghost before = current@;
        match current.pop() {
            None => Err(ParseError::NothingToQuantify),
            Some(last) => {
                proof {
                    lemma_nodes_drop_last(before);
                    assert(before.subrange(0, before.len() - 1) =~= before.drop_last());
                }
                match last {
                    Pattern::Repeating(_) | Pattern::Optional(_) => {
                        proof {
                            lemma_nodes_push(current@, last);
                            assert(current@.push(last) =~= before);
                        }
                        current.push(last);
                        let st = Scanner { outer, top: Frame { id, done, current }, class, escaping, groups };
                        Ok(st.emit(Pattern::SingleCharacter(c)))
                    },
                    _ => {
                        let node = if repeat {
                            Pattern::Repeating(Box::new(last))
                        } else {
                            Pattern::Optional(Box::new(last))
                        };
                        proof {
                            lemma_nodes_push(current@, node);
                        }
                        current.push(node);
                        Ok(Scanner { outer, top: Frame { id, done, current }, class, escaping, groups })
                    },
                }
            },
        }
    }

    fn step_plain(self, c: char) -> (r: Result<Scanner, ParseError>)
        requires
            self.class is None,
            !self.escaping,
            self.groups < usize::MAX,
        ensures
            agrees(r, step_plain(self@, c)),
    {
        if c == '+' {
            self.step_quantifier(c, true)
        } else if c == '?' {
            self.step_quantifier(c, false)
        } else if c == '.' {
            Ok(self.emit(Pattern::Wildcard))
        } else {
            let Scanner { mut outer, top, class, escaping, groups } = self;
            if c == '\\' {
                Ok(Scanner { outer, top, class, escaping: true, groups })
            } else if c == '[' {
                let members: Vec<Pattern> = Vec::new();
                assert(nodes_of(members@) =~= Seq::empty());
                Ok(
                    Scanner {
                        outer,
                        top,
                        class: Some(ClassBuf { members, negated: false }),
                        escaping,
                        groups,
                    },
                )
            } else if c == '(' {
                proof {
                    lemma_levels_push(outer@, top);
                }
                outer.push(top);
                let fresh = Frame { id: groups, done: Vec::new(), current: Vec::new() };
                assert(level_of(fresh).done =~= Seq::empty());
                assert(level_of(fresh).current =~= Seq::empty());
                Ok(Scanner { outer, top: fresh, class, escaping, groups: groups + 1 })
            } else if c == '|' && outer.len() > 0 {
                let Frame { id, mut done, current } = top;
                proof {
                    lemma_alts_push(done@, current);
                }
                done.push(current);
                let fresh: Vec<Pattern> = Vec::new();
                assert(nodes_of(fresh@) =~= Seq::empty());
                Ok(Scanner { outer, top: Frame { id, done, current: fresh }, class, escaping, groups })
            } else if c == ')' && outer.len() > 0 {
                let Frame { id, mut done, current } = top;
                proof {
                    lemma_alts_push(done@, current);
                    lemma_levels_drop_last(outer@);
                    assert(outer@.subrange(0, outer@.len() - 1) =~= outer@.drop_last());
                }
                done.push(current);
                let parent = outer.pop().unwrap();
                let st = Scanner { outer, top: parent, class, escaping, groups };
                Ok(st.emit(Pattern::Choice(id, done)))
            } else {
                let st = Scanner { outer, top, class, escaping, groups };
                Ok(st.emit(Pattern::SingleCharacter(c)))
            }
        }
    }

    /// The state after one more code point.
    fn step(self, c: char) -> (r: Result<Scanner, ParseError>)
        requires
            self.groups < usize::MAX,
        ensures
            agrees(r, step(self@, c)),
            r is Ok ==> r->Ok_0.groups <= self.groups + 1,
    {
        let Scanner { outer, top, class, escaping, groups } = self;
        match class {
            Some(buf) => {
                let st = Scanner { outer, top, class: None, escaping, groups };
                st.step_in_class(buf, c)
            },
            None => {
                let st = Scanner { outer, top, class: None, escaping, groups };
                if escaping {
                    st.step_escaped(c)
                } else {
                    st.step_plain(c)
                }
            },
        }
    }
}

/// Whether `r` is the program or refusal `m`.
pub open spec fn parsed(r: Result<Program, ParseError>, m: Result<ProgramModel, ParseError>) -> bool {
    match m {
        Ok(program) => r is Ok && r->Ok_0@ == program,
        Err(e) => r is Err && r->Err_0 == e,
    }
}

/// Once the scan has refused a pattern, it stays with that refusal.
pub proof fn lemma_scan_refusal_stays(p: Seq<char>, k: int, n: int)
    requires
        0 <= k <= n,
        scan(p, k) is Err,
    ensures
        scan(p, n) == scan(p, k),
    decreases n - k,
{
    if k < n {
        lemma_scan_refusal_stays(p, k, n - 1);
    }
}

/// Whether the code point at index `n` follows an unescaped `\`.
fn pending_escape(chars: &Vec<char>, from: usize, n: usize) -> (pending: bool)
    requires
        from <= n <= chars.len(),
    ensures
        pending == escape_pending(chars@.skip(from as int), n - from),
{
    let ghost body = chars@.skip(from as int);
    let mut pending = false;
    let mut i: usize = from;
    while i < n
        invariant
            from <= i <= n <= chars.len(),
            body == chars@.skip(from as int),
            pending == escape_pending(body, i - from),
        decreases n - i,
    {
        assert(body[i - from] == chars@[i as int]);
        pending = chars[i] == '\\' && !pending;
        i += 1;
    }
    pending
}

/// Parses the code points of a pattern into a program.
pub fn parse_chars(chars: &Vec<char>) -> (r: Result<Program, ParseError>)
    ensures
        parsed(r, parse_model(chars@)),
        r is Ok ==> program_wf(r->Ok_0@),
{
    proof {
        if parse_model(chars@) is Ok {
            lemma_parse_wf(chars@);
        }
    }
    let len = chars.len();
    let anchored_start = len > 0 && chars[0] == '^';
    let lo: usize = if anchored_start {
        1
    } else {
        0
    };
    let ghost body = chars@.skip(lo as int);
    assert(!anchored_start ==> body =~= chars@);
    let anchored_end = len > lo && chars[len - 1] == '$' && !pending_escape(chars, lo, len - 1);
    let hi: usize = if anchored_end {
        (len - 1) as usize
    } else {
        len
    };
    let ghost core = chars@.subrange(lo as int, hi as int);
    assert(core =~= unanchored(chars@));
    let mut st = Scanner::new();
    let mut i: usize = lo;
    while i < hi
        invariant
            lo <= i <= hi <= chars.len(),
            core == chars@.subrange(lo as int, hi as int),
            core == unanchored(chars@),
            scan(core, i - lo) == Ok::<ScanModel, ParseError>(st@),
            st.groups <= i - lo,
        decreases hi - i,
    {
        assert(core[i - lo] == chars@[i as int]);
        match st.step(chars[i]) {
            Ok(next) => {
                st = next;
            },
            Err(e) => {
                proof {
                    assert(scan(core, i - lo + 1) == Err::<ScanModel, ParseError>(e));
                    lemma_scan_refusal_stays(core, i - lo + 1, core.len() as int);
                }
                return Err(e);
            },
        }
        i += 1;
    }
    let Scanner { outer, top, class, escaping, groups } = st;
    if escaping {
        Err(ParseError::DanglingEscape)
    } else if class.is_some() {
        Err(ParseError::UnbalancedBracket)
    } else if outer.len() > 0 {
        Err(ParseError::UnbalancedParenthesis)
    } else {
        Ok(Program { nodes: top.current, anchored_start, anchored_end, groups })
    }
}

/// Parses a pattern into a program, or says why the pattern is refused.
pub fn parse_patterns(pattern: &str) -> (r: Result<Program, ParseError>)
    ensures
        parsed(r, parse_model(pattern@)),
        r is Ok ==> program_wf(r->Ok_0@),
{
    let chars = crate::text::chars_of(pattern);
    parse_chars(&chars)
}

} // verus!
