//! A pattern put inside a group: the scan of `(` followed by the pattern runs
//! like the scan of the pattern alone, one level deeper and with the groups
//! numbered from 1 on.
use vstd::prelude::*;
use crate::model::{Node, is_quantifier};
use crate::parser::{ClassModel, Level, ParseError, ScanModel, emit, initial, is_group_digit, scan, step, step_escaped, step_in_class, step_plain, step_quantifier};
use crate::renumber::{nodes_read_no_capture, reads_no_capture, renumbered, renumbered_alts, renumbered_nodes, lemma_renumbered_group};

verus! {

/// What the scan does with `c` in state `st` does not depend on whether the
/// pattern stands inside a group: `c` is no `|` or `)` outside all groups of
/// the pattern, and no back-reference.
pub open spec fn step_allowed(st: ScanModel, c: char) -> bool {
    st.class is None ==> (if st.escaping {
        !is_group_digit(c)
    } else {
        st.outer.len() == 0 ==> c != '|' && c != ')'
    })
}

/// Whether a pattern means the same inside a group as alone: it holds no
/// back-reference, and no `|` or `)` outside its own groups.
pub open spec fn self_contained(p: Seq<char>) -> bool {
    forall|k: int|
        0 <= k < p.len() && (#[trigger] scan(p, k)) is Ok ==> step_allowed(scan(p, k)->Ok_0, p[k])
}

/// A level of the pattern, as it is inside the group: the top level of the
/// pattern is group 0, the groups of the pattern are numbered one higher.
pub open spec fn lifted_level(level: Level, is_group: bool) -> Level {
    Level {
        id: if is_group {
            level.id + 1
        } else {
            0
        },
        done: renumbered_alts(level.done, 1),
        current: renumbered_nodes(level.current, 1),
    }
}

/// The top level around the group.
pub open spec fn around() -> Level {
    Level { id: 0, done: Seq::empty(), current: Seq::empty() }
}

/// The state of the scan of the pattern, as it is inside the group.
pub open spec fn lifted(st: ScanModel) -> ScanModel {
    ScanModel {
        outer: Seq::new(
            st.outer.len() + 1,
            |i: int|
                if i == 0 {
                    around()
                } else {
                    lifted_level(st.outer[i - 1], i > 1)
                },
        ),
        top: lifted_level(st.top, st.outer.len() > 0),
        class: st.class,
        escaping: st.escaping,
        groups: st.groups + 1,
    }
}

/// Whether the nodes of a level hold no back-reference.
pub open spec fn level_reads_no_capture(level: Level) -> bool {
    &&& forall|j: int| 0 <= j < level.done.len() ==> nodes_read_no_capture(#[trigger] level.done[j])
    &&& nodes_read_no_capture(level.current)
}

/// Whether the nodes read so far hold no back-reference.
pub open spec fn state_reads_no_capture(st: ScanModel) -> bool {
    &&& forall|i: int| 0 <= i < st.outer.len() ==> level_reads_no_capture(#[trigger] st.outer[i])
    &&& level_reads_no_capture(st.top)
}

proof fn lemma_emit_lifted(st: ScanModel, n: Node)
    requires
        reads_no_capture(n),
        state_reads_no_capture(st),
    ensures
        emit(lifted(st), renumbered(n, 1)) == lifted(emit(st, n)),
        state_reads_no_capture(emit(st, n)),
{
    let a = emit(lifted(st), renumbered(n, 1));
    let b = lifted(emit(st, n));
    assert(a.top.current =~= b.top.current);
    assert(a.outer =~= b.outer);
    let cur = emit(st, n).top.current;
    assert forall|i: int| 0 <= i < cur.len() implies reads_no_capture(#[trigger] cur[i]) by {
        if i < st.top.current.len() {
            assert(cur[i] == st.top.current[i]);
        }
    }
}

proof fn lemma_step_in_class_lifted(st: ScanModel, class: ClassModel, c: char)
    requires
        st.class == Some(class),
        state_reads_no_capture(st),
    ensures
        match step_in_class(st, class, c) {
            Ok(st2) => step_in_class(lifted(st), class, c) == Ok::<ScanModel, ParseError>(lifted(st2))
                && state_reads_no_capture(st2),
            Err(e) => step_in_class(lifted(st), class, c) == Err::<ScanModel, ParseError>(e),
        },
{
    if c == ']' {
        if class.members.len() > 0 {
            let closed = ScanModel { class: None, escaping: false, ..st };
            let node = Node::CharClass(class.members, class.negated);
            lemma_emit_lifted(closed, node);
            assert(lifted(closed) == ScanModel { class: None, escaping: false, ..lifted(st) });
        }
    } else {
        let st2 = step_in_class(st, class, c)->Ok_0;
        let l2 = step_in_class(lifted(st), class, c)->Ok_0;
        assert(l2.outer =~= lifted(st2).outer);
    }
}

proof fn lemma_step_escaped_lifted(st: ScanModel, c: char)
    requires
        st.class is None,
        st.escaping,
        !is_group_digit(c),
        state_reads_no_capture(st),
    ensures
        match step_escaped(st, c) {
            Ok(st2) => step_escaped(lifted(st), c) == Ok::<ScanModel, ParseError>(lifted(st2))
                && state_reads_no_capture(st2),
            Err(e) => step_escaped(lifted(st), c) == Err::<ScanModel, ParseError>(e),
        },
{
    let st1 = ScanModel { escaping: false, ..st };
    assert(lifted(st1) == ScanModel { escaping: false, ..lifted(st) });
    let node = if c == 'd' {
        Node::Digit
    } else if c == 'w' {
        Node::WordLike
    } else {
        Node::Literal(c)
    };
    lemma_emit_lifted(st1, node);
}

proof fn lemma_step_quantifier_lifted(st: ScanModel, c: char, repeat: bool)
    requires
        state_reads_no_capture(st),
    ensures
        match step_quantifier(st, c, repeat) {
            Ok(st2) => step_quantifier(lifted(st), c, repeat) == Ok::<ScanModel, ParseError>(
                lifted(st2),
            ) && state_reads_no_capture(st2),
            Err(e) => step_quantifier(lifted(st), c, repeat) == Err::<ScanModel, ParseError>(e),
        },
{
    let current = st.top.current;
    if current.len() > 0 {
        let last = current.last();
        let lcur = lifted(st).top.current;
        assert(lcur.last() == renumbered(last, 1));
        assert(is_quantifier(lcur.last()) == is_quantifier(last));
        assert(reads_no_capture(last));
        if is_quantifier(last) {
            lemma_emit_lifted(st, Node::Literal(c));
        } else {
            let st2 = step_quantifier(st, c, repeat)->Ok_0;
            let l2 = step_quantifier(lifted(st), c, repeat)->Ok_0;
            assert(l2.top.current =~= lifted(st2).top.current);
            assert(l2.outer =~= lifted(st2).outer);
            let cur2 = st2.top.current;
            assert forall|i: int| 0 <= i < cur2.len() implies reads_no_capture(#[trigger] cur2[i]) by {
                if i < current.len() - 1 {
                    assert(cur2[i] == current[i]);
                }
            }
        }
    }
}

proof fn lemma_step_plain_lifted(st: ScanModel, c: char)
    requires
        st.class is None,
        !st.escaping,
        st.outer.len() == 0 ==> c != '|' && c != ')',
        state_reads_no_capture(st),
    ensures
        match step_plain(st, c) {
            Ok(st2) => step_plain(lifted(st), c) == Ok::<ScanModel, ParseError>(lifted(st2))
                && state_reads_no_capture(st2),
            Err(e) => step_plain(lifted(st), c) == Err::<ScanModel, ParseError>(e),
        },
{
    if c == '\\' {
        let st2 = step_plain(st, c)->Ok_0;
        assert(step_plain(lifted(st), c)->Ok_0.outer =~= lifted(st2).outer);
    } else if c == '[' {
        let st2 = step_plain(st, c)->Ok_0;
        assert(step_plain(lifted(st), c)->Ok_0.outer =~= lifted(st2).outer);
    } else if c == '.' {
        lemma_emit_lifted(st, Node::Wildcard);
    } else if c == '+' {
        lemma_step_quantifier_lifted(st, c, true);
    } else if c == '?' {
        lemma_step_quantifier_lifted(st, c, false);
    } else if c == '(' {
        let st2 = step_plain(st, c)->Ok_0;
        let l2 = step_plain(lifted(st), c)->Ok_0;
        assert(l2.outer =~= lifted(st2).outer);
        assert(l2.top.done =~= lifted(st2).top.done);
        assert(l2.top.current =~= lifted(st2).top.current);
        assert forall|i: int| 0 <= i < st2.outer.len() implies level_reads_no_capture(
            #[trigger] st2.outer[i],
        ) by {
            if i < st.outer.len() {
                assert(st2.outer[i] == st.outer[i]);
            }
        }
    } else if c == '|' && st.outer.len() > 0 {
        let st2 = step_plain(st, c)->Ok_0;
        let l2 = step_plain(lifted(st), c)->Ok_0;
        assert(l2.outer =~= lifted(st2).outer);
        assert(l2.top.done =~= lifted(st2).top.done);
        assert(l2.top.current =~= lifted(st2).top.current);
        assert forall|j: int| 0 <= j < st2.top.done.len() implies nodes_read_no_capture(
            #[trigger] st2.top.done[j],
        ) by {
            if j < st.top.done.len() {
                assert(st2.top.done[j] == st.top.done[j]);
            }
        }
    } else if c == ')' && st.outer.len() > 0 {
        let alts = st.top.done.push(st.top.current);
        let group = Node::Group(st.top.id, alts);
        let popped = ScanModel { outer: st.outer.drop_last(), top: st.outer.last(), ..st };
        assert forall|j: int| 0 <= j < alts.len() implies nodes_read_no_capture(#[trigger] alts[j]) by {
            if j < st.top.done.len() {
                assert(alts[j] == st.top.done[j]);
            }
        }
        assert(level_reads_no_capture(st.outer[st.outer.len() - 1]));
        assert forall|i: int| 0 <= i < popped.outer.len() implies level_reads_no_capture(
            #[trigger] popped.outer[i],
        ) by {
            assert(popped.outer[i] == st.outer[i]);
        }
        lemma_emit_lifted(popped, group);
        lemma_renumbered_group(st.top.id, alts, 1);
        let lst = lifted(st);
        let lpopped = ScanModel { outer: lst.outer.drop_last(), top: lst.outer.last(), ..lst };
        assert(lpopped.outer =~= lifted(popped).outer);
        assert(lpopped.top == lifted(popped).top);
        assert(lst.top.done.push(lst.top.current) =~= renumbered_alts(alts, 1));
    } else {
        lemma_emit_lifted(st, Node::Literal(c));
    }
}

/// One step of the scan inside the group is the step of the scan of the
/// pattern alone, lifted.
pub proof fn lemma_step_lifted(st: ScanModel, c: char)
    requires
        step_allowed(st, c),
        state_reads_no_capture(st),
    ensures
        match step(st, c) {
            Ok(st2) => step(lifted(st), c) == Ok::<ScanModel, ParseError>(lifted(st2))
                && state_reads_no_capture(st2),
            Err(e) => step(lifted(st), c) == Err::<ScanModel, ParseError>(e),
        },
{
    match st.class {
        Some(class) => lemma_step_in_class_lifted(st, class, c),
        None => if st.escaping {
            lemma_step_escaped_lifted(st, c)
        } else {
            lemma_step_plain_lifted(st, c)
        },
    }
}

/// The scan of `(` and then the pattern `p` is the scan of `p`, lifted.
pub proof fn lemma_scan_lifted(p: Seq<char>, w: Seq<char>, k: int)
    requires
        self_contained(p),
        0 <= k <= p.len() < w.len(),
        w[0] == '(',
        forall|i: int| 0 <= i < p.len() ==> w[i + 1] == p[i],
        scan(p, k) is Ok,
    ensures
        scan(w, k + 1) == Ok::<ScanModel, ParseError>(lifted(scan(p, k)->Ok_0)),
        state_reads_no_capture(scan(p, k)->Ok_0),
    decreases k,
{
    if k == 0 {
        assert(scan(w, 0) == Ok::<ScanModel, ParseError>(initial()));
        let opened = step(initial(), '(')->Ok_0;
        assert(opened.outer =~= lifted(initial()).outer);
        assert(opened.top.done =~= lifted(initial()).top.done);
        assert(opened.top.current =~= lifted(initial()).top.current);
        assert(scan(w, 1) == step(initial(), w[0]));
    } else {
        lemma_scan_lifted(p, w, k - 1);
        let st = scan(p, k - 1)->Ok_0;
        assert(step_allowed(st, p[k - 1]));
        lemma_step_lifted(st, p[k - 1]);
    }
}

/// Where the scan of the pattern `p` refuses it, the scan of `(` and then `p`
/// refuses it too.
pub proof fn lemma_scan_lifted_refusal(p: Seq<char>, w: Seq<char>, k: int)
    requires
        self_contained(p),
        0 <= k <= p.len() < w.len(),
        w[0] == '(',
        forall|i: int| 0 <= i < p.len() ==> w[i + 1] == p[i],
        scan(p, k) is Err,
    ensures
        scan(w, k + 1) is Err,
    decreases k,
{
    if scan(p, k - 1) is Err {
        lemma_scan_lifted_refusal(p, w, k - 1);
    } else {
        lemma_scan_lifted(p, w, k - 1);
        let st = scan(p, k - 1)->Ok_0;
        assert(step_allowed(st, p[k - 1]));
        lemma_step_lifted(st, p[k - 1]);
    }
}

/// A pattern without `|`, `)` and the digits `1` to `9` means the same inside
/// a group as alone.
pub proof fn lemma_self_contained(p: Seq<char>)
    requires
        !p.contains('|'),
        !p.contains(')'),
        forall|i: int| 0 <= i < p.len() ==> !is_group_digit(#[trigger] p[i]),
    ensures
        self_contained(p),
{
    assert forall|k: int| 0 <= k < p.len() && (#[trigger] scan(p, k)) is Ok implies step_allowed(
        scan(p, k)->Ok_0,
        p[k],
    ) by {
        assert(p.contains(p[k]));
        assert(!is_group_digit(p[k]));
    }
}

} // verus!
