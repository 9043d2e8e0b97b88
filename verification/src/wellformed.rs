//! Every program that the parser accepts is well formed.
use vstd::prelude::*;
use crate::model::{Node, alts_group_ids, alts_refer_back, node_refers_back, nodes_refer_back, count_up, is_class_member, is_quantifier, node_group_ids, node_wf, nodes_group_ids, nodes_wf, program_wf};
use crate::parser::{ClassModel, Level, ScanModel, emit, initial, parse_model, scan, step, step_escaped, step_in_class, step_plain, step_quantifier, unanchored};

verus! {

/// Whether the nodes of a level are well formed.
pub open spec fn level_wf(level: Level, groups: nat) -> bool {
    &&& forall|j: int| 0 <= j < level.done.len() ==> nodes_wf(#[trigger] level.done[j], groups)
    &&& nodes_wf(level.current, groups)
}

/// The numbers of the groups of a level, in the order in which they open. A
/// level that is an open group starts with the number of that group.
pub open spec fn level_group_ids(level: Level, is_group: bool) -> Seq<nat> {
    (if is_group {
        seq![level.id]
    } else {
        Seq::empty()
    }) + alts_group_ids(level.done) + nodes_group_ids(level.current)
}

/// The numbers of the groups of the levels, outermost first. The outermost
/// level is the top level of the pattern, the others are open groups.
pub open spec fn levels_group_ids(levels: Seq<Level>) -> Seq<nat>
    decreases levels.len(),
{
    if levels.len() == 0 {
        Seq::empty()
    } else {
        levels_group_ids(levels.drop_last()) + level_group_ids(levels.last(), levels.len() > 1)
    }
}

/// Whether the members of an open class are members.
pub open spec fn class_wf(class: Option<ClassModel>) -> bool {
    match class {
        Some(class) => forall|i: int|
            0 <= i < class.members.len() ==> is_class_member(#[trigger] class.members[i]),
        None => true,
    }
}

/// What holds of every state of the scan: the nodes read so far are well
/// formed, open groups have numbers below the number of groups, the members
/// of an open class are members, and the groups read so far are numbered from
/// 0 on in the order in which they open.
pub open spec fn state_wf(st: ScanModel) -> bool {
    &&& forall|i: int| 0 <= i < st.outer.len() ==> level_wf(#[trigger] st.outer[i], st.groups)
    &&& level_wf(st.top, st.groups)
    &&& st.outer.len() > 0 ==> st.top.id < st.groups
    &&& class_wf(st.class)
    &&& levels_group_ids(st.outer) + level_group_ids(st.top, st.outer.len() > 0) == count_up(
        st.groups,
    )
}

proof fn lemma_node_wf_more_groups(n: Node, groups: nat, more: nat)
    requires
        node_wf(n, groups),
        groups <= more,
    ensures
        node_wf(n, more),
    decreases n,
{
    match n {
        Node::Repeat(inner) => lemma_node_wf_more_groups(*inner, groups, more),
        Node::Optional(inner) => lemma_node_wf_more_groups(*inner, groups, more),
        Node::Group(id, alts) => {
            assert forall|j: int| 0 <= j < alts.len() implies nodes_wf(#[trigger] alts[j], more) by {
                assert(nodes_wf(alts[j], groups));
                lemma_nodes_wf_more_groups(alts[j], groups, more);
            }
        },
        _ => {},
    }
}

proof fn lemma_nodes_wf_more_groups(nodes: Seq<Node>, groups: nat, more: nat)
    requires
        nodes_wf(nodes, groups),
        groups <= more,
    ensures
        nodes_wf(nodes, more),
    decreases nodes,
{
    assert forall|i: int| 0 <= i < nodes.len() implies node_wf(#[trigger] nodes[i], more) by {
        lemma_node_wf_more_groups(nodes[i], groups, more);
    }
}

proof fn lemma_level_wf_more_groups(level: Level, groups: nat, more: nat)
    requires
        level_wf(level, groups),
        groups <= more,
    ensures
        level_wf(level, more),
{
    assert forall|j: int| 0 <= j < level.done.len() implies nodes_wf(#[trigger] level.done[j], more) by {
        lemma_nodes_wf_more_groups(level.done[j], groups, more);
    }
    lemma_nodes_wf_more_groups(level.current, groups, more);
}

proof fn lemma_push_group_ids(nodes: Seq<Node>, n: Node)
    ensures
        nodes_group_ids(nodes.push(n)) == nodes_group_ids(nodes) + node_group_ids(n),
{
    assert(nodes.push(n).drop_last() =~= nodes);
}

proof fn lemma_push_alt_group_ids(alts: Seq<Seq<Node>>, alt: Seq<Node>)
    ensures
        alts_group_ids(alts.push(alt)) == alts_group_ids(alts) + nodes_group_ids(alt),
{
    assert(alts.push(alt).drop_last() =~= alts);
}

/// Adding a well-formed node keeps the state well formed, if the node brings
/// no group of its own.
proof fn lemma_emit_wf(st: ScanModel, n: Node)
    requires
        state_wf(st),
        node_wf(n, st.groups),
        node_group_ids(n) == Seq::<nat>::empty(),
    ensures
        state_wf(emit(st, n)),
{
    lemma_push_group_ids(st.top.current, n);
    let st2 = emit(st, n);
    assert(level_group_ids(st2.top, st.outer.len() > 0) =~= level_group_ids(
        st.top,
        st.outer.len() > 0,
    ));
}

proof fn lemma_step_in_class_wf(st: ScanModel, class: ClassModel, c: char)
    requires
        state_wf(st),
        st.class == Some(class),
        step_in_class(st, class, c) is Ok,
    ensures
        state_wf(step_in_class(st, class, c)->Ok_0),
{
    let st2 = step_in_class(st, class, c)->Ok_0;
    assert forall|i: int| 0 <= i < class.members.len() implies is_class_member(
        #[trigger] class.members[i],
    ) by {
        assert(class_wf(st.class));
        assert(st.class->0.members[i] == class.members[i]);
    }
    if c == ']' {
        let closed = ScanModel { class: None, escaping: false, ..st };
        lemma_emit_wf(closed, Node::CharClass(class.members, class.negated));
    } else {
        let members = st2.class->0.members;
        assert forall|i: int| 0 <= i < members.len() implies is_class_member(#[trigger] members[i]) by {
            if i < class.members.len() {
                assert(members[i] == class.members[i]);
            }
        }
    }
}

proof fn lemma_step_escaped_wf(st: ScanModel, c: char)
    requires
        state_wf(st),
        st.class is None,
        step_escaped(st, c) is Ok,
    ensures
        state_wf(step_escaped(st, c)->Ok_0),
{
    let st1 = ScanModel { escaping: false, ..st };
    let st2 = step_escaped(st, c)->Ok_0;
    let n = st2.top.current.last();
    assert(st2 == emit(st1, n));
    lemma_emit_wf(st1, n);
}

proof fn lemma_step_quantifier_wf(st: ScanModel, c: char, repeat: bool)
    requires
        state_wf(st),
        st.class is None,
        step_quantifier(st, c, repeat) is Ok,
    ensures
        state_wf(step_quantifier(st, c, repeat)->Ok_0),
{
    let current = st.top.current;
    let last = current.last();
    if is_quantifier(last) {
        lemma_emit_wf(st, Node::Literal(c));
    } else {
        let node = if repeat {
            Node::Repeat(Box::new(last))
        } else {
            Node::Optional(Box::new(last))
        };
        let st2 = step_quantifier(st, c, repeat)->Ok_0;
        assert(node_wf(last, st.groups));
        assert(nodes_wf(st2.top.current, st.groups)) by {
            assert forall|i: int| 0 <= i < st2.top.current.len() implies node_wf(
                #[trigger] st2.top.current[i],
                st.groups,
            ) by {
                if i < current.len() - 1 {
                    assert(st2.top.current[i] == current[i]);
                }
            }
        }
        lemma_push_group_ids(current.drop_last(), node);
        assert(nodes_group_ids(st2.top.current) == nodes_group_ids(current));
        assert(level_group_ids(st2.top, st.outer.len() > 0) =~= level_group_ids(
            st.top,
            st.outer.len() > 0,
        ));
    }
}

proof fn lemma_step_plain_wf(st: ScanModel, c: char)
    requires
        state_wf(st),
        st.class is None,
        step_plain(st, c) is Ok,
    ensures
        state_wf(step_plain(st, c)->Ok_0),
{
    let st2 = step_plain(st, c)->Ok_0;
    let is_group = st.outer.len() > 0;
    if c == '\\' {
    } else if c == '[' {
    } else if c == '.' {
        lemma_emit_wf(st, Node::Wildcard);
    } else if c == '+' {
        lemma_step_quantifier_wf(st, c, true);
    } else if c == '?' {
        lemma_step_quantifier_wf(st, c, false);
    } else if c == '(' {
        assert forall|i: int| 0 <= i < st2.outer.len() implies level_wf(
            #[trigger] st2.outer[i],
            st2.groups,
        ) by {
            if i < st.outer.len() {
                assert(st2.outer[i] == st.outer[i]);
                lemma_level_wf_more_groups(st.outer[i], st.groups, st2.groups);
            } else {
                lemma_level_wf_more_groups(st.top, st.groups, st2.groups);
            }
        }
        assert(st2.outer.drop_last() =~= st.outer);
        assert(alts_group_ids(st2.top.done) =~= Seq::<nat>::empty());
        assert(nodes_group_ids(st2.top.current) =~= Seq::<nat>::empty());
        assert(level_group_ids(st2.top, true) =~= seq![st.groups]);
        assert(count_up(st.groups) + seq![st.groups] =~= count_up(st2.groups));
    } else if c == '|' && st.outer.len() > 0 {
        lemma_push_alt_group_ids(st.top.done, st.top.current);
        assert(nodes_group_ids(st2.top.current) =~= Seq::<nat>::empty());
        assert(level_group_ids(st2.top, is_group) =~= level_group_ids(st.top, is_group));
        assert forall|j: int| 0 <= j < st2.top.done.len() implies nodes_wf(
            #[trigger] st2.top.done[j],
            st.groups,
        ) by {
            if j < st.top.done.len() {
                assert(st2.top.done[j] == st.top.done[j]);
            }
        }
    } else if c == ')' && st.outer.len() > 0 {
        let alts = st.top.done.push(st.top.current);
        let group = Node::Group(st.top.id, alts);
        let parent = st.outer.last();
        assert forall|j: int| 0 <= j < alts.len() implies nodes_wf(#[trigger] alts[j], st.groups) by {
            if j < st.top.done.len() {
                assert(alts[j] == st.top.done[j]);
            }
        }
        assert forall|i: int| 0 <= i < st2.outer.len() implies level_wf(
            #[trigger] st2.outer[i],
            st2.groups,
        ) by {
            assert(st2.outer[i] == st.outer[i]);
        }
        assert(level_wf(parent, st.groups));
        assert(nodes_wf(st2.top.current, st.groups)) by {
            assert forall|i: int| 0 <= i < st2.top.current.len() implies node_wf(
                #[trigger] st2.top.current[i],
                st.groups,
            ) by {
                if i < parent.current.len() {
                    assert(st2.top.current[i] == parent.current[i]);
                }
            }
        }
        if st2.outer.len() > 0 {
            assert(st.outer[st.outer.len() - 1] == parent);
            lemma_open_group_ids(st);
        }
        lemma_push_alt_group_ids(st.top.done, st.top.current);
        lemma_push_group_ids(parent.current, group);
        let parent_is_group = st.outer.len() > 1;
        assert(level_group_ids(st2.top, parent_is_group) =~= level_group_ids(parent, parent_is_group)
            + level_group_ids(st.top, true));
        assert(levels_group_ids(st2.outer) + level_group_ids(st2.top, parent_is_group)
            =~= levels_group_ids(st.outer) + level_group_ids(st.top, true));
    } else {
        lemma_emit_wf(st, Node::Literal(c));
    }
}

/// The number of every open group is below the number of groups: it is among
/// the numbers read so far.
proof fn lemma_open_group_ids(st: ScanModel)
    requires
        state_wf(st),
        st.outer.len() > 1,
    ensures
        st.outer.last().id < st.groups,
{
    let ids = levels_group_ids(st.outer) + level_group_ids(st.top, true);
    let before = levels_group_ids(st.outer.drop_last());
    let parent = st.outer.last();
    let own = level_group_ids(parent, true);
    assert(own[0] == parent.id);
    assert(levels_group_ids(st.outer) == before + own);
    assert(ids.len() > before.len());
    assert(levels_group_ids(st.outer)[before.len() as int] == parent.id);
    assert(ids[before.len() as int] == parent.id);
    assert(count_up(st.groups)[before.len() as int] == before.len());
}

proof fn lemma_step_wf(st: ScanModel, c: char)
    requires
        state_wf(st),
        step(st, c) is Ok,
    ensures
        state_wf(step(st, c)->Ok_0),
{
    match st.class {
        Some(class) => lemma_step_in_class_wf(st, class, c),
        None => if st.escaping {
            lemma_step_escaped_wf(st, c)
        } else {
            lemma_step_plain_wf(st, c)
        },
    }
}

/// The number of groups that open before the content of the level at index
/// `i`, where index `levels.len()` stands for the innermost level.
pub open spec fn level_base(levels: Seq<Level>, i: int) -> nat {
    levels_group_ids(levels.take(i)).len() + if i > 0 {
        1nat
    } else {
        0nat
    }
}

/// Whether every back-reference of a level refers to a group that opens
/// before it, if `base` groups open before the content of the level.
pub open spec fn level_refers_back(level: Level, base: nat) -> bool {
    &&& alts_refer_back(level.done, base)
    &&& nodes_refer_back(level.current, base + alts_group_ids(level.done).len())
}

/// Whether every back-reference read so far refers to a group that opens
/// before it.
pub open spec fn state_refers_back(st: ScanModel) -> bool {
    &&& forall|i: int|
        0 <= i < st.outer.len() ==> level_refers_back(#[trigger] st.outer[i], level_base(st.outer, i))
    &&& level_refers_back(st.top, level_base(st.outer, st.outer.len() as int))
}

/// The number of groups read so far is the number of groups that open before
/// the next node.
proof fn lemma_groups_so_far(st: ScanModel)
    requires
        state_wf(st),
    ensures
        level_base(st.outer, st.outer.len() as int) + alts_group_ids(st.top.done).len()
            + nodes_group_ids(st.top.current).len() == st.groups,
{
    assert(st.outer.take(st.outer.len() as int) =~= st.outer);
    let ids = levels_group_ids(st.outer) + level_group_ids(st.top, st.outer.len() > 0);
    assert(ids.len() == st.groups);
}

proof fn lemma_emit_refers_back(st: ScanModel, n: Node)
    requires
        state_wf(st),
        state_refers_back(st),
        node_refers_back(n, st.groups),
    ensures
        state_refers_back(emit(st, n)),
{
    lemma_groups_so_far(st);
    assert(emit(st, n).top.current.drop_last() =~= st.top.current);
}

proof fn lemma_step_in_class_refers_back(st: ScanModel, class: ClassModel, c: char)
    requires
        state_wf(st),
        state_refers_back(st),
        st.class == Some(class),
        step_in_class(st, class, c) is Ok,
    ensures
        state_refers_back(step_in_class(st, class, c)->Ok_0),
{
    if c == ']' {
        let closed = ScanModel { class: None, escaping: false, ..st };
        lemma_emit_refers_back(closed, Node::CharClass(class.members, class.negated));
    }
}

proof fn lemma_step_escaped_refers_back(st: ScanModel, c: char)
    requires
        state_wf(st),
        state_refers_back(st),
        st.class is None,
        step_escaped(st, c) is Ok,
    ensures
        state_refers_back(step_escaped(st, c)->Ok_0),
{
    let st1 = ScanModel { escaping: false, ..st };
    let st2 = step_escaped(st, c)->Ok_0;
    let n = st2.top.current.last();
    assert(st2 == emit(st1, n));
    lemma_emit_refers_back(st1, n);
}

proof fn lemma_step_quantifier_refers_back(st: ScanModel, c: char, repeat: bool)
    requires
        state_wf(st),
        state_refers_back(st),
        st.class is None,
        step_quantifier(st, c, repeat) is Ok,
    ensures
        state_refers_back(step_quantifier(st, c, repeat)->Ok_0),
{
    let current = st.top.current;
    if is_quantifier(current.last()) {
        lemma_emit_refers_back(st, Node::Literal(c));
    } else {
        let st2 = step_quantifier(st, c, repeat)->Ok_0;
        let base = level_base(st.outer, st.outer.len() as int) + alts_group_ids(st.top.done).len();
        let before = base + nodes_group_ids(current.drop_last()).len();
        assert(st2.top.current.drop_last() =~= current.drop_last());
        assert(nodes_refer_back(current, base));
        assert(node_refers_back(current.last(), before));
        assert(node_refers_back(st2.top.current.last(), before));
        assert(nodes_refer_back(st2.top.current, base));
    }
}

proof fn lemma_open_refers_back(st: ScanModel)
    requires
        state_wf(st),
        state_refers_back(st),
        st.class is None,
        !st.escaping,
    ensures
        state_refers_back(step_plain(st, '(')->Ok_0),
{
    let st2 = step_plain(st, '(')->Ok_0;
    let depth = st.outer.len() as int;
    assert forall|i: int| 0 <= i < st2.outer.len() implies level_refers_back(
        #[trigger] st2.outer[i],
        level_base(st2.outer, i),
    ) by {
        assert(st2.outer.take(i) =~= st.outer.take(i));
        if i < depth {
            assert(st2.outer[i] == st.outer[i]);
        }
    }
    assert(alts_group_ids(st2.top.done) =~= Seq::<nat>::empty());
}

proof fn lemma_bar_refers_back(st: ScanModel)
    requires
        state_wf(st),
        state_refers_back(st),
        st.class is None,
        !st.escaping,
        st.outer.len() > 0,
    ensures
        state_refers_back(step_plain(st, '|')->Ok_0),
{
    let st2 = step_plain(st, '|')->Ok_0;
    let base = level_base(st.outer, st.outer.len() as int);
    lemma_push_alt_group_ids(st.top.done, st.top.current);
    assert(st2.top.done.drop_last() =~= st.top.done);
    assert(st2.top.done.last() == st.top.current);
    assert(alts_refer_back(st2.top.done, base));
    assert(nodes_refer_back(st2.top.current, base + alts_group_ids(st2.top.done).len()));
}

proof fn lemma_close_refers_back(st: ScanModel)
    requires
        state_wf(st),
        state_refers_back(st),
        st.class is None,
        !st.escaping,
        st.outer.len() > 0,
    ensures
        state_refers_back(step_plain(st, ')')->Ok_0),
{
    let st2 = step_plain(st, ')')->Ok_0;
    let depth = st.outer.len() as int;
    let alts = st.top.done.push(st.top.current);
    let group = Node::Group(st.top.id, alts);
    let parent = st.outer.last();
    let base = level_base(st.outer, depth - 1);
    let inner_base = level_base(st.outer, depth);
    assert(level_refers_back(st.outer[depth - 1], base));
    assert(alts.drop_last() =~= st.top.done);
    assert(alts.last() == st.top.current);
    assert(alts_refer_back(alts, inner_base));
    assert(st.outer.take(depth) =~= st.outer);
    assert(st.outer.take(depth - 1) =~= st.outer.drop_last());
    assert(levels_group_ids(st.outer) == levels_group_ids(st.outer.drop_last()) + level_group_ids(
        parent,
        depth > 1,
    ));
    let parent_base = base + alts_group_ids(parent.done).len();
    assert(inner_base == parent_base + nodes_group_ids(parent.current).len() + 1);
    assert(node_refers_back(group, parent_base + nodes_group_ids(parent.current).len()));
    assert(st2.top.current.drop_last() =~= parent.current);
    assert(st2.top.current.last() == group);
    assert(nodes_refer_back(parent.current, parent_base));
    assert(nodes_refer_back(st2.top.current, parent_base));
    assert(st2.outer =~= st.outer.drop_last());
    assert(st2.outer.take(st2.outer.len() as int) =~= st.outer.take(depth - 1));
    assert(level_base(st2.outer, st2.outer.len() as int) == base);
    assert(st2.top.done == parent.done);
    assert(level_refers_back(st2.top, base));
    assert forall|i: int| 0 <= i < st2.outer.len() implies level_refers_back(
        #[trigger] st2.outer[i],
        level_base(st2.outer, i),
    ) by {
        assert(st2.outer.take(i) =~= st.outer.take(i));
        assert(st2.outer[i] == st.outer[i]);
    }
}

proof fn lemma_step_plain_refers_back(st: ScanModel, c: char)
    requires
        state_wf(st),
        state_refers_back(st),
        st.class is None,
        !st.escaping,
        step_plain(st, c) is Ok,
    ensures
        state_refers_back(step_plain(st, c)->Ok_0),
{
    if c == '\\' {
    } else if c == '[' {
    } else if c == '.' {
        lemma_emit_refers_back(st, Node::Wildcard);
    } else if c == '+' {
        lemma_step_quantifier_refers_back(st, c, true);
    } else if c == '?' {
        lemma_step_quantifier_refers_back(st, c, false);
    } else if c == '(' {
        lemma_open_refers_back(st);
    } else if c == '|' && st.outer.len() > 0 {
        lemma_bar_refers_back(st);
    } else if c == ')' && st.outer.len() > 0 {
        lemma_close_refers_back(st);
    } else {
        lemma_emit_refers_back(st, Node::Literal(c));
    }
}

proof fn lemma_step_refers_back(st: ScanModel, c: char)
    requires
        state_wf(st),
        state_refers_back(st),
        step(st, c) is Ok,
    ensures
        state_refers_back(step(st, c)->Ok_0),
{
    match st.class {
        Some(class) => lemma_step_in_class_refers_back(st, class, c),
        None => if st.escaping {
            lemma_step_escaped_refers_back(st, c)
        } else {
            lemma_step_plain_refers_back(st, c)
        },
    }
}

/// Every state that the scan reaches is well formed.
pub proof fn lemma_scan_wf(p: Seq<char>, n: int)
    requires
        scan(p, n) is Ok,
    ensures
        state_wf(scan(p, n)->Ok_0),
        state_refers_back(scan(p, n)->Ok_0),
    decreases n,
{
    if n <= 0 {
        let st = initial();
        assert(st.outer.take(0) =~= st.outer);
        assert(levels_group_ids(st.outer) =~= Seq::<nat>::empty());
        assert(level_group_ids(st.top, false) =~= Seq::<nat>::empty());
        assert(count_up(0) =~= Seq::<nat>::empty());
    } else {
        lemma_scan_wf(p, n - 1);
        lemma_step_wf(scan(p, n - 1)->Ok_0, p[n - 1]);
        lemma_step_refers_back(scan(p, n - 1)->Ok_0, p[n - 1]);
    }
}

/// Every program that the parser accepts is well formed.
pub proof fn lemma_parse_wf(p: Seq<char>)
    requires
        parse_model(p) is Ok,
    ensures
        program_wf(parse_model(p)->Ok_0),
{
    let core = unanchored(p);
    lemma_scan_wf(core, core.len() as int);
    let st = scan(core, core.len() as int)->Ok_0;
    assert(st.outer.take(0) =~= st.outer);
    assert(levels_group_ids(st.outer) =~= Seq::<nat>::empty());
    assert(level_group_ids(st.top, false) =~= nodes_group_ids(st.top.current)) by {
        assert(st.outer.len() == 0);
        assert(st.top.done.len() == 0) by {
            lemma_top_level_has_no_alternatives(core, core.len() as int);
        }
    }
    assert(alts_group_ids(st.top.done) =~= Seq::<nat>::empty());
}

/// At the top level of a pattern no alternative is ever closed.
pub proof fn lemma_top_level_has_no_alternatives(p: Seq<char>, n: int)
    requires
        scan(p, n) is Ok,
    ensures
        ({
            let st = scan(p, n)->Ok_0;
            if st.outer.len() == 0 {
                st.top.done.len() == 0
            } else {
                st.outer[0].done.len() == 0
            }
        }),
    decreases n,
{
    if n > 0 {
        lemma_top_level_has_no_alternatives(p, n - 1);
    }
}

} // verus!
