use vstd::prelude::*;

use crate::access::WildcardAccessLevel;
use crate::access::level_max;
use crate::access::lvl;
use crate::tracking::WildcardAccessTracking;
use crate::tracking::spec_max_child_access;
use crate::tree::Node;
use crate::tree::exposed_as_of;
use crate::tree::s_exposed_as;
use crate::tree::wf_node;
use crate::tree::wf_nodes;

verus! {

// The ground truth for the incremental algorithm: every node's record must
// equal a direct recomputation from its neighbours' state.  The whole
// per-location state is a triple of parallel sequences indexed by node:
// the arena `ns`, the per-node allowance `al` for this location, and the
// per-node records `rs`.

/// `max_child_access` of node `i`, read from the stored record.
pub open spec fn mca_at(
    ns: Seq<Node>,
    al: Seq<WildcardAccessLevel>,
    rs: Seq<WildcardAccessTracking>,
    i: int,
) -> WildcardAccessLevel {
    spec_max_child_access(rs[i], s_exposed_as(ns, al, i))
}

/// How many of the child indices in `cs` have `max_child_access` of rank
/// at least `t`.
pub open spec fn count_children_at_least(
    ns: Seq<Node>,
    al: Seq<WildcardAccessLevel>,
    rs: Seq<WildcardAccessTracking>,
    cs: Seq<usize>,
    t: int,
) -> int
    decreases cs.len(),
{
    if cs.len() == 0 {
        0
    } else {
        count_children_at_least(ns, al, rs, cs.drop_last(), t) + if lvl(
            mca_at(ns, al, rs, cs.last() as int),
        ) >= t {
            1int
        } else {
            0int
        }
    }
}

/// The strongest `max_child_access` among the child indices in `cs`,
/// leaving out the entry `excl`.
pub open spec fn max_child_access_excluding(
    ns: Seq<Node>,
    al: Seq<WildcardAccessLevel>,
    rs: Seq<WildcardAccessTracking>,
    cs: Seq<usize>,
    excl: int,
) -> WildcardAccessLevel
    decreases cs.len(),
{
    if cs.len() == 0 {
        WildcardAccessLevel::NoAccess
    } else {
        level_max(
            max_child_access_excluding(ns, al, rs, cs.drop_last(), excl),
            if cs.last() as int == excl {
                WildcardAccessLevel::NoAccess
            } else {
                mca_at(ns, al, rs, cs.last() as int)
            },
        )
    }
}

/// What `max_foreign_access` of node `i` must be: the strongest access
/// reaching `i` from outside its subtree, namely through the parent's
/// foreign region, the parent's own exposure, or a sibling's subtree.
/// A root has no foreign region at all.
pub open spec fn expected_foreign(
    ns: Seq<Node>,
    al: Seq<WildcardAccessLevel>,
    rs: Seq<WildcardAccessTracking>,
    i: int,
) -> WildcardAccessLevel {
    match ns[i].parent {
        Some(p) => level_max(
            rs[p as int].max_foreign_access,
            level_max(
                s_exposed_as(ns, al, p as int),
                max_child_access_excluding(ns, al, rs, ns[p as int].children@, i),
            ),
        ),
        None => WildcardAccessLevel::NoAccess,
    }
}

/// The invariant equations at node `i`.
pub open spec fn node_consistent(
    ns: Seq<Node>,
    al: Seq<WildcardAccessLevel>,
    rs: Seq<WildcardAccessTracking>,
    i: int,
) -> bool {
    &&& rs[i].max_foreign_access == expected_foreign(ns, al, rs, i)
    &&& rs[i].child_reads as int == count_children_at_least(ns, al, rs, ns[i].children@, 1)
    &&& rs[i].child_writes as int == count_children_at_least(ns, al, rs, ns[i].children@, 2)
}

/// The global invariant: the equations hold at every node.
pub open spec fn consistent(
    ns: Seq<Node>,
    al: Seq<WildcardAccessLevel>,
    rs: Seq<WildcardAccessTracking>,
) -> bool {
    forall|i: int| 0 <= i < ns.len() ==> #[trigger] node_consistent(ns, al, rs, i)
}

/// The counter half of the invariant at node `i`.
pub open spec fn node_counters_ok(
    ns: Seq<Node>,
    al: Seq<WildcardAccessLevel>,
    rs: Seq<WildcardAccessTracking>,
    i: int,
) -> bool {
    &&& rs[i].child_reads as int == count_children_at_least(ns, al, rs, ns[i].children@, 1)
    &&& rs[i].child_writes as int == count_children_at_least(ns, al, rs, ns[i].children@, 2)
}

/// The counter half of the invariant: every node's stored counters match
/// the thresholds its children's `max_child_access` reach.  Unlike the
/// full invariant this says nothing about `max_foreign_access`.
pub open spec fn counters_ok(
    ns: Seq<Node>,
    al: Seq<WildcardAccessLevel>,
    rs: Seq<WildcardAccessTracking>,
) -> bool {
    forall|i: int| 0 <= i < ns.len() ==> #[trigger] node_counters_ok(ns, al, rs, i)
}

/// The full invariant contains its counter half.
pub proof fn lemma_consistent_implies_counters_ok(
    ns: Seq<Node>,
    al: Seq<WildcardAccessLevel>,
    rs: Seq<WildcardAccessTracking>,
)
    requires
        consistent(ns, al, rs),
    ensures
        counters_ok(ns, al, rs),
{
    assert forall|i: int| 0 <= i < ns.len() implies #[trigger] node_counters_ok(
        ns,
        al,
        rs,
        i,
    ) by {
        assert(node_consistent(ns, al, rs, i));
    };
}

/// The arena as it is with node `i`'s exposure flag raised: the state in
/// which that node's exposure level is read from the allowance.
pub open spec fn nodes_with_exposed(ns: Seq<Node>, i: int) -> Seq<Node> {
    ns.update(
        i,
        Node { parent: ns[i].parent, children: ns[i].children, is_exposed: true },
    )
}

/// The counters stay right across any reshaping of the state that keeps
/// every node's child list and effective exposure level.
pub proof fn lemma_counters_ok_congruent(
    ns1: Seq<Node>,
    al1: Seq<WildcardAccessLevel>,
    ns2: Seq<Node>,
    al2: Seq<WildcardAccessLevel>,
    rs: Seq<WildcardAccessTracking>,
)
    requires
        wf_nodes(ns1),
        ns1.len() == ns2.len(),
        forall|i: int| 0 <= i < ns1.len() ==> (#[trigger] ns2[i]).children@ == ns1[i].children@,
        forall|i: int|
            0 <= i < ns1.len() ==> #[trigger] s_exposed_as(ns2, al2, i) == s_exposed_as(
                ns1,
                al1,
                i,
            ),
        counters_ok(ns1, al1, rs),
    ensures
        counters_ok(ns2, al2, rs),
{
    assert forall|i: int| 0 <= i < ns2.len() implies #[trigger] node_counters_ok(
        ns2,
        al2,
        rs,
        i,
    ) by {
        assert(node_counters_ok(ns1, al1, rs, i));
        assert(wf_node(ns1, i));
        assert forall|j: int| 0 <= j < ns1[i].children@.len() implies mca_at(
            ns1,
            al1,
            rs,
            (#[trigger] ns1[i].children@[j]) as int,
        ) == mca_at(ns2, al2, rs, ns1[i].children@[j] as int) by {
            assert((ns1[i].children@[j] as int) < ns1.len());
        };
        lemma_count_congruent_members(ns1, al1, rs, ns2, al2, rs, ns1[i].children@, 1);
        lemma_count_congruent_members(ns1, al1, rs, ns2, al2, rs, ns1[i].children@, 2);
    };
}

/// Counting only looks at the listed children themselves.
pub(crate) proof fn lemma_count_congruent_members(
    ns1: Seq<Node>,
    al1: Seq<WildcardAccessLevel>,
    rs1: Seq<WildcardAccessTracking>,
    ns2: Seq<Node>,
    al2: Seq<WildcardAccessLevel>,
    rs2: Seq<WildcardAccessTracking>,
    cs: Seq<usize>,
    t: int,
)
    requires
        forall|j: int|
            0 <= j < cs.len() ==> mca_at(ns1, al1, rs1, (#[trigger] cs[j]) as int) == mca_at(
                ns2,
                al2,
                rs2,
                cs[j] as int,
            ),
    ensures
        count_children_at_least(ns2, al2, rs2, cs, t) == count_children_at_least(
            ns1,
            al1,
            rs1,
            cs,
            t,
        ),
    decreases cs.len(),
{
    if cs.len() > 0 {
        lemma_count_congruent_members(ns1, al1, rs1, ns2, al2, rs2, cs.drop_last(), t);
        assert(cs.last() == cs[cs.len() - 1]);
    }
}

/// A count of children lies between zero and the list's length.
pub(crate) proof fn lemma_count_nonneg(
    ns: Seq<Node>,
    al: Seq<WildcardAccessLevel>,
    rs: Seq<WildcardAccessTracking>,
    cs: Seq<usize>,
    t: int,
)
    ensures
        0 <= count_children_at_least(ns, al, rs, cs, t) <= cs.len(),
    decreases cs.len(),
{
    if cs.len() > 0 {
        lemma_count_nonneg(ns, al, rs, cs.drop_last(), t);
    }
}

/// A positive count names at least one qualifying position.
pub(crate) proof fn lemma_count_pos_exists(
    ns: Seq<Node>,
    al: Seq<WildcardAccessLevel>,
    rs: Seq<WildcardAccessTracking>,
    cs: Seq<usize>,
    t: int,
)
    requires
        count_children_at_least(ns, al, rs, cs, t) >= 1,
    ensures
        exists|j: int| 0 <= j < cs.len() && lvl(mca_at(ns, al, rs, cs[j] as int)) >= t,
    decreases cs.len(),
{
    assert(cs.len() > 0);
    if lvl(mca_at(ns, al, rs, cs.last() as int)) >= t {
        assert(cs[cs.len() - 1] == cs.last());
    } else {
        lemma_count_pos_exists(ns, al, rs, cs.drop_last(), t);
        let j0 = choose|j0: int|
            0 <= j0 < cs.drop_last().len() && lvl(
                mca_at(ns, al, rs, cs.drop_last()[j0] as int),
            ) >= t;
        assert(cs[j0] == cs.drop_last()[j0]);
    }
}

/// A qualifying position contributes to the count.
pub(crate) proof fn lemma_qualifier_counts(
    ns: Seq<Node>,
    al: Seq<WildcardAccessLevel>,
    rs: Seq<WildcardAccessTracking>,
    cs: Seq<usize>,
    t: int,
    j: int,
)
    requires
        0 <= j < cs.len(),
        lvl(mca_at(ns, al, rs, cs[j] as int)) >= t,
    ensures
        count_children_at_least(ns, al, rs, cs, t) >= 1,
    decreases cs.len(),
{
    lemma_count_nonneg(ns, al, rs, cs.drop_last(), t);
    if j == cs.len() - 1 {
        assert(cs.last() == cs[j]);
    } else {
        assert(cs.drop_last()[j] == cs[j]);
        lemma_qualifier_counts(ns, al, rs, cs.drop_last(), t, j);
    }
}

/// Two distinct qualifying positions contribute two.
pub(crate) proof fn lemma_two_qualifiers(
    ns: Seq<Node>,
    al: Seq<WildcardAccessLevel>,
    rs: Seq<WildcardAccessTracking>,
    cs: Seq<usize>,
    t: int,
    j1: int,
    j2: int,
)
    requires
        0 <= j1 < cs.len(),
        0 <= j2 < cs.len(),
        j1 != j2,
        lvl(mca_at(ns, al, rs, cs[j1] as int)) >= t,
        lvl(mca_at(ns, al, rs, cs[j2] as int)) >= t,
    ensures
        count_children_at_least(ns, al, rs, cs, t) >= 2,
    decreases cs.len(),
{
    if j1 == cs.len() - 1 {
        assert(cs.last() == cs[j1]);
        assert(cs.drop_last()[j2] == cs[j2]);
        lemma_qualifier_counts(ns, al, rs, cs.drop_last(), t, j2);
    } else if j2 == cs.len() - 1 {
        assert(cs.last() == cs[j2]);
        assert(cs.drop_last()[j1] == cs[j1]);
        lemma_qualifier_counts(ns, al, rs, cs.drop_last(), t, j1);
    } else {
        assert(cs.drop_last()[j1] == cs[j1]);
        assert(cs.drop_last()[j2] == cs[j2]);
        lemma_two_qualifiers(ns, al, rs, cs.drop_last(), t, j1, j2);
        lemma_count_nonneg(ns, al, rs, cs.drop_last(), t);
    }
}

/// When exactly one listed child's `max_child_access` moves between two
/// states, the count moves by exactly that child's two threshold tests.
pub(crate) proof fn lemma_count_one_change(
    ns1: Seq<Node>,
    al1: Seq<WildcardAccessLevel>,
    rs1: Seq<WildcardAccessTracking>,
    ns2: Seq<Node>,
    al2: Seq<WildcardAccessLevel>,
    rs2: Seq<WildcardAccessTracking>,
    cs: Seq<usize>,
    t: int,
    x: usize,
)
    requires
        cs.no_duplicates(),
        cs.contains(x),
        forall|j: int|
            0 <= j < cs.len() && cs[j] != x ==> mca_at(ns1, al1, rs1, (#[trigger] cs[j]) as int)
                == mca_at(ns2, al2, rs2, cs[j] as int),
    ensures
        count_children_at_least(ns2, al2, rs2, cs, t) == count_children_at_least(
            ns1,
            al1,
            rs1,
            cs,
            t,
        ) - (if lvl(mca_at(ns1, al1, rs1, x as int)) >= t {
            1int
        } else {
            0int
        }) + (if lvl(mca_at(ns2, al2, rs2, x as int)) >= t {
            1int
        } else {
            0int
        }),
    decreases cs.len(),
{
    assert(cs.len() > 0);
    assert(cs.last() == cs[cs.len() - 1]);
    if cs.last() == x {
        assert forall|j: int| 0 <= j < cs.drop_last().len() implies (#[trigger] cs.drop_last()[j])
            != x by {
            assert(cs.drop_last()[j] == cs[j]);
        };
        lemma_count_congruent_members(ns1, al1, rs1, ns2, al2, rs2, cs.drop_last(), t);
    } else {
        let idx = choose|idx: int| 0 <= idx < cs.len() && cs[idx] == x;
        assert(idx < cs.len() - 1);
        assert(cs.drop_last()[idx] == x);
        assert(cs.drop_last().contains(x));
        assert(cs.drop_last().no_duplicates());
        lemma_count_one_change(ns1, al1, rs1, ns2, al2, rs2, cs.drop_last(), t, x);
    }
}

/// Counting is unchanged between two states that agree on every node
/// below the bound `b` the listed children stay under.
proof fn lemma_count_congruent(
    ns1: Seq<Node>,
    al1: Seq<WildcardAccessLevel>,
    rs1: Seq<WildcardAccessTracking>,
    ns2: Seq<Node>,
    al2: Seq<WildcardAccessLevel>,
    rs2: Seq<WildcardAccessTracking>,
    cs: Seq<usize>,
    t: int,
    b: int,
)
    requires
        forall|j: int| 0 <= j < cs.len() ==> ((#[trigger] cs[j]) as int) < b,
        forall|i: int|
            0 <= i < b ==> #[trigger] mca_at(ns2, al2, rs2, i) == mca_at(ns1, al1, rs1, i),
    ensures
        count_children_at_least(ns2, al2, rs2, cs, t) == count_children_at_least(
            ns1,
            al1,
            rs1,
            cs,
            t,
        ),
    decreases cs.len(),
{
    if cs.len() > 0 {
        lemma_count_congruent(ns1, al1, rs1, ns2, al2, rs2, cs.drop_last(), t, b);
        assert(cs.last() == cs[cs.len() - 1]);
    }
}

/// As [`lemma_count_congruent`], for the strongest-sibling fold.
proof fn lemma_max_excl_congruent(
    ns1: Seq<Node>,
    al1: Seq<WildcardAccessLevel>,
    rs1: Seq<WildcardAccessTracking>,
    ns2: Seq<Node>,
    al2: Seq<WildcardAccessLevel>,
    rs2: Seq<WildcardAccessTracking>,
    cs: Seq<usize>,
    excl: int,
    b: int,
)
    requires
        forall|j: int| 0 <= j < cs.len() ==> ((#[trigger] cs[j]) as int) < b,
        forall|i: int|
            0 <= i < b ==> #[trigger] mca_at(ns2, al2, rs2, i) == mca_at(ns1, al1, rs1, i),
    ensures
        max_child_access_excluding(ns2, al2, rs2, cs, excl) == max_child_access_excluding(
            ns1,
            al1,
            rs1,
            cs,
            excl,
        ),
    decreases cs.len(),
{
    if cs.len() > 0 {
        lemma_max_excl_congruent(ns1, al1, rs1, ns2, al2, rs2, cs.drop_last(), excl, b);
        assert(cs.last() == cs[cs.len() - 1]);
    }
}

/// Over a child list that does not mention `excl` at all, the exclusion
/// is vacuous, and the counters decide exactly how strong the strongest
/// child subtree is.
proof fn lemma_counts_vs_max_excluding(
    ns: Seq<Node>,
    al: Seq<WildcardAccessLevel>,
    rs: Seq<WildcardAccessTracking>,
    cs: Seq<usize>,
    excl: int,
)
    requires
        forall|j: int| 0 <= j < cs.len() ==> ((#[trigger] cs[j]) as int) != excl,
    ensures
        count_children_at_least(ns, al, rs, cs, 1) >= 0,
        count_children_at_least(ns, al, rs, cs, 2) >= 0,
        (count_children_at_least(ns, al, rs, cs, 1) > 0) == (lvl(
            max_child_access_excluding(ns, al, rs, cs, excl),
        ) >= 1),
        (count_children_at_least(ns, al, rs, cs, 2) > 0) == (lvl(
            max_child_access_excluding(ns, al, rs, cs, excl),
        ) >= 2),
    decreases cs.len(),
{
    if cs.len() > 0 {
        lemma_counts_vs_max_excluding(ns, al, rs, cs.drop_last(), excl);
        assert(cs.last() == cs[cs.len() - 1]);
    }
}

/// The whole invariant survives any reshaping of the state that keeps
/// every node's links, child list and effective exposure level.
pub proof fn lemma_consistent_congruent(
    ns1: Seq<Node>,
    al1: Seq<WildcardAccessLevel>,
    ns2: Seq<Node>,
    al2: Seq<WildcardAccessLevel>,
    rs: Seq<WildcardAccessTracking>,
)
    requires
        wf_nodes(ns1),
        ns1.len() == ns2.len(),
        forall|i: int| 0 <= i < ns1.len() ==> (#[trigger] ns2[i]).parent == ns1[i].parent,
        forall|i: int| 0 <= i < ns1.len() ==> (#[trigger] ns2[i]).children@ == ns1[i].children@,
        forall|i: int|
            0 <= i < ns1.len() ==> #[trigger] s_exposed_as(ns2, al2, i) == s_exposed_as(
                ns1,
                al1,
                i,
            ),
        consistent(ns1, al1, rs),
    ensures
        consistent(ns2, al2, rs),
{
    let n = ns1.len() as int;
    assert forall|i: int| 0 <= i < n implies #[trigger] mca_at(ns2, al2, rs, i) == mca_at(
        ns1,
        al1,
        rs,
        i,
    ) by {};
    assert forall|i: int| 0 <= i < ns2.len() implies #[trigger] node_consistent(
        ns2,
        al2,
        rs,
        i,
    ) by {
        assert(node_consistent(ns1, al1, rs, i));
        assert(wf_node(ns1, i));
        lemma_count_congruent(ns1, al1, rs, ns2, al2, rs, ns1[i].children@, 1, n);
        lemma_count_congruent(ns1, al1, rs, ns2, al2, rs, ns1[i].children@, 2, n);
        match ns1[i].parent {
            Some(q) => {
                assert(wf_node(ns1, q as int));
                lemma_max_excl_congruent(ns1, al1, rs, ns2, al2, rs, ns1[q as int].children@, i, n);
                assert(expected_foreign(ns2, al2, rs, i) == expected_foreign(ns1, al1, rs, i));
            },
            None => {
                assert(expected_foreign(ns2, al2, rs, i) == WildcardAccessLevel::NoAccess);
            },
        }
    };
}

/// The counter half of derivation correctness: appending a fresh child —
/// registered in its parent's child list, unexposed, with zero counters —
/// leaves every counter equation satisfied, whatever the foreign levels
/// say.
pub proof fn lemma_new_child_counters_ok(
    ns: Seq<Node>,
    al: Seq<WildcardAccessLevel>,
    rs: Seq<WildcardAccessTracking>,
    p: int,
    p2: Node,
    child: Node,
    crec: WildcardAccessTracking,
    cal: WildcardAccessLevel,
)
    requires
        wf_nodes(ns),
        ns.len() < usize::MAX,
        al.len() == ns.len(),
        rs.len() == ns.len(),
        0 <= p < ns.len(),
        p2.parent == ns[p].parent,
        p2.is_exposed == ns[p].is_exposed,
        p2.children@ == ns[p].children@.push(ns.len() as usize),
        child.parent == Some(p as usize),
        child.children@ == Seq::<usize>::empty(),
        !child.is_exposed,
        crec.child_reads == 0,
        crec.child_writes == 0,
        counters_ok(ns, al, rs),
    ensures
        counters_ok(ns.update(p, p2).push(child), al.push(cal), rs.push(crec)),
{
    let n = ns.len() as int;
    let ns2 = ns.update(p, p2).push(child);
    let al2 = al.push(cal);
    let rs2 = rs.push(crec);
    assert forall|i: int| 0 <= i < n implies #[trigger] mca_at(ns2, al2, rs2, i) == mca_at(
        ns,
        al,
        rs,
        i,
    ) by {
        assert(rs2[i] == rs[i]);
        assert(al2[i] == al[i]);
        assert(ns2[i].is_exposed == ns[i].is_exposed);
    };
    assert(mca_at(ns2, al2, rs2, n) == WildcardAccessLevel::NoAccess);
    assert forall|i: int| 0 <= i < ns2.len() implies #[trigger] node_counters_ok(
        ns2,
        al2,
        rs2,
        i,
    ) by {
        if i < n {
            assert(node_counters_ok(ns, al, rs, i));
            assert(wf_node(ns, i));
            if i == p {
                let cs2 = p2.children@;
                assert(cs2.drop_last() =~= ns[p].children@);
                assert(cs2.last() == ns.len() as usize);
                lemma_count_congruent(ns, al, rs, ns2, al2, rs2, ns[p].children@, 1, n);
                lemma_count_congruent(ns, al, rs, ns2, al2, rs2, ns[p].children@, 2, n);
            } else {
                assert(ns2[i].children@ == ns[i].children@);
                lemma_count_congruent(ns, al, rs, ns2, al2, rs2, ns[i].children@, 1, n);
                lemma_count_congruent(ns, al, rs, ns2, al2, rs2, ns[i].children@, 2, n);
            }
        } else {
            assert(i == n);
            assert(ns2[n] == child);
            assert(count_children_at_least(ns2, al2, rs2, child.children@, 1) == 0);
            assert(count_children_at_least(ns2, al2, rs2, child.children@, 2) == 0);
        }
    };
}

/// Derivation correctness: the record [`WildcardAccessTracking::get_new_child`]
/// produces for a brand-new child immediately satisfies the invariant.
/// Appending the child — registered in its parent's child list, unexposed,
/// with no children of its own — to a consistent location leaves every
/// equation satisfied, with no propagation pass.
pub proof fn lemma_new_child_consistent(
    ns: Seq<Node>,
    al: Seq<WildcardAccessLevel>,
    rs: Seq<WildcardAccessTracking>,
    p: int,
    p2: Node,
    child: Node,
    crec: WildcardAccessTracking,
    cal: WildcardAccessLevel,
)
    requires
        wf_nodes(ns),
        ns.len() < usize::MAX,
        al.len() == ns.len(),
        rs.len() == ns.len(),
        0 <= p < ns.len(),
        p2.parent == ns[p].parent,
        p2.is_exposed == ns[p].is_exposed,
        p2.children@ == ns[p].children@.push(ns.len() as usize),
        child.parent == Some(p as usize),
        child.children@ == Seq::<usize>::empty(),
        !child.is_exposed,
        crec.child_reads == 0,
        crec.child_writes == 0,
        crec.max_foreign_access == level_max(
            rs[p].max_foreign_access,
            spec_max_child_access(rs[p], s_exposed_as(ns, al, p)),
        ),
        consistent(ns, al, rs),
    ensures
        consistent(ns.update(p, p2).push(child), al.push(cal), rs.push(crec)),
{
    let n = ns.len() as int;
    let ns2 = ns.update(p, p2).push(child);
    let al2 = al.push(cal);
    let rs2 = rs.push(crec);
    assert forall|i: int| 0 <= i < n implies #[trigger] mca_at(ns2, al2, rs2, i) == mca_at(
        ns,
        al,
        rs,
        i,
    ) by {
        assert(rs2[i] == rs[i]);
        assert(al2[i] == al[i]);
        assert(ns2[i].is_exposed == ns[i].is_exposed);
    };
    assert(mca_at(ns2, al2, rs2, n) == WildcardAccessLevel::NoAccess);
    assert forall|i: int| 0 <= i < ns2.len() implies #[trigger] node_consistent(
        ns2,
        al2,
        rs2,
        i,
    ) by {
        if i < n {
            assert(node_consistent(ns, al, rs, i));
            assert(wf_node(ns, i));
            // The child counters of i.
            if i == p {
                let cs2 = p2.children@;
                assert(cs2.drop_last() =~= ns[p].children@);
                assert(cs2.last() == ns.len() as usize);
                lemma_count_congruent(ns, al, rs, ns2, al2, rs2, ns[p].children@, 1, n);
                lemma_count_congruent(ns, al, rs, ns2, al2, rs2, ns[p].children@, 2, n);
                assert(count_children_at_least(ns2, al2, rs2, cs2, 1)
                    == count_children_at_least(ns, al, rs, ns[p].children@, 1));
                assert(count_children_at_least(ns2, al2, rs2, cs2, 2)
                    == count_children_at_least(ns, al, rs, ns[p].children@, 2));
            } else {
                assert(ns2[i].children@ == ns[i].children@);
                lemma_count_congruent(ns, al, rs, ns2, al2, rs2, ns[i].children@, 1, n);
                lemma_count_congruent(ns, al, rs, ns2, al2, rs2, ns[i].children@, 2, n);
            }
            // The expected foreign level of i.
            assert(ns2[i].parent == ns[i].parent);
            match ns[i].parent {
                Some(q) => {
                    assert(wf_node(ns, q as int));
                    assert(s_exposed_as(ns2, al2, q as int) == s_exposed_as(ns, al, q as int));
                    assert(rs2[q as int] == rs[q as int]);
                    if q as int == p {
                        let cs2 = p2.children@;
                        assert(cs2.drop_last() =~= ns[p].children@);
                        assert(cs2.last() == ns.len() as usize);
                        lemma_max_excl_congruent(
                            ns,
                            al,
                            rs,
                            ns2,
                            al2,
                            rs2,
                            ns[p].children@,
                            i,
                            n,
                        );
                        assert(cs2.last() as int != i);
                        assert(level_max(
                            max_child_access_excluding(ns2, al2, rs2, ns[p].children@, i),
                            WildcardAccessLevel::NoAccess,
                        ) == max_child_access_excluding(ns2, al2, rs2, ns[p].children@, i));
                        assert(max_child_access_excluding(ns2, al2, rs2, cs2, i)
                            == max_child_access_excluding(ns, al, rs, ns[p].children@, i));
                    } else {
                        assert(ns2[q as int].children@ == ns[q as int].children@);
                        lemma_max_excl_congruent(
                            ns,
                            al,
                            rs,
                            ns2,
                            al2,
                            rs2,
                            ns[q as int].children@,
                            i,
                            n,
                        );
                    }
                    assert(expected_foreign(ns2, al2, rs2, i) == expected_foreign(ns, al, rs, i));
                },
                None => {
                    assert(expected_foreign(ns2, al2, rs2, i) == WildcardAccessLevel::NoAccess);
                },
            }
        } else {
            // The new child itself.
            assert(i == n);
            assert(ns2[n] == child);
            assert(rs2[n] == crec);
            // Its child list is empty, so both counters must be zero.
            assert(count_children_at_least(ns2, al2, rs2, child.children@, 1) == 0);
            assert(count_children_at_least(ns2, al2, rs2, child.children@, 2) == 0);
            // Its expected foreign level is exactly what get_new_child stored.
            let cs = ns[p].children@;
            let cs2 = p2.children@;
            assert(cs2.drop_last() =~= cs);
            assert(cs2.last() == ns.len() as usize);
            assert(cs2.last() as int == n);
            assert(wf_node(ns, p));
            assert forall|j: int| 0 <= j < cs.len() implies ((#[trigger] cs[j]) as int) != n && ((
            cs[j]) as int) < n by {
                assert(wf_node(ns, p));
            };
            lemma_max_excl_congruent(ns, al, rs, ns2, al2, rs2, cs, n, n);
            assert(max_child_access_excluding(ns2, al2, rs2, cs2, n) == max_child_access_excluding(
                ns,
                al,
                rs,
                cs,
                n,
            ));
            lemma_counts_vs_max_excluding(ns, al, rs, cs, n);
            assert(node_consistent(ns, al, rs, p));
            let m = max_child_access_excluding(ns, al, rs, cs, n);
            // The counters of the parent pin the strongest sibling level.
            assert((if rs[p].child_writes > 0 {
                WildcardAccessLevel::Write
            } else if rs[p].child_reads > 0 {
                WildcardAccessLevel::Read
            } else {
                WildcardAccessLevel::NoAccess
            }) == m);
            assert(s_exposed_as(ns2, al2, p) == s_exposed_as(ns, al, p));
            assert(rs2[p] == rs[p]);
            assert(expected_foreign(ns2, al2, rs2, n) == level_max(
                rs[p].max_foreign_access,
                level_max(s_exposed_as(ns, al, p), m),
            ));
            assert(crec.max_foreign_access == expected_foreign(ns2, al2, rs2, n));
        }
    };
}

impl WildcardAccessTracking {
    /// Recompute every aggregate directly from the invariant equations and
    /// compare with the stored records.  This is the test oracle: it never
    /// runs on the normal path, and a `false` answer means the incremental
    /// algorithm itself is defective, not that the analysed program did
    /// anything wrong.
    pub fn verify_consistency(
        nodes: &Vec<Node>,
        allowed: &Vec<WildcardAccessLevel>,
        accesses: &Vec<WildcardAccessTracking>,
    ) -> (r: bool)
        requires
            wf_nodes(nodes@),
            allowed@.len() == nodes@.len(),
            accesses@.len() == nodes@.len(),
        ensures
            r == consistent(nodes@, allowed@, accesses@),
    {
        let n = nodes.len();
        let mut i: usize = 0;
        while i < n
            invariant
                n == nodes@.len(),
                wf_nodes(nodes@),
                allowed@.len() == n,
                accesses@.len() == n,
                i <= n,
                forall|k: int|
                    0 <= k < i ==> #[trigger] node_consistent(nodes@, allowed@, accesses@, k),
            decreases n - i,
        {
            proof {
                assert(wf_node(nodes@, i as int));
            }
            // Recompute the child counters of node i.
            let cs_len = nodes[i].children.len();
            let mut cr: usize = 0;
            let mut cw: usize = 0;
            let mut j: usize = 0;
            while j < cs_len
                invariant
                    n == nodes@.len(),
                    wf_nodes(nodes@),
                    allowed@.len() == n,
                    accesses@.len() == n,
                    i < n,
                    wf_node(nodes@, i as int),
                    cs_len == nodes@[i as int].children@.len(),
                    j <= cs_len,
                    cr <= j,
                    cw <= j,
                    cr as int == count_children_at_least(
                        nodes@,
                        allowed@,
                        accesses@,
                        nodes@[i as int].children@.take(j as int),
                        1,
                    ),
                    cw as int == count_children_at_least(
                        nodes@,
                        allowed@,
                        accesses@,
                        nodes@[i as int].children@.take(j as int),
                        2,
                    ),
                decreases cs_len - j,
            {
                let c = nodes[i].children[j];
                let e = exposed_as_of(nodes, allowed, c);
                let m = accesses[c].max_child_access(e);
                if m.rank() >= 1 {
                    cr += 1;
                }
                if m.rank() >= 2 {
                    cw += 1;
                }
                proof {
                    let csq = nodes@[i as int].children@;
                    assert(csq.take(j as int + 1).drop_last() =~= csq.take(j as int));
                    assert(csq.take(j as int + 1).last() == c);
                }
                j += 1;
            }
            proof {
                assert(nodes@[i as int].children@.take(cs_len as int) =~= nodes@[
                    i as int
                ].children@);
            }
            // Recompute what max_foreign_access of node i must be.
            let expected: WildcardAccessLevel = match nodes[i].parent {
                Some(p) => {
                    proof {
                        assert(wf_node(nodes@, p as int));
                    }
                    let pcs_len = nodes[p].children.len();
                    let mut m = WildcardAccessLevel::NoAccess;
                    let mut k: usize = 0;
                    while k < pcs_len
                        invariant
                            n == nodes@.len(),
                            wf_nodes(nodes@),
                            allowed@.len() == n,
                            accesses@.len() == n,
                            i < n,
                            p < n,
                            wf_node(nodes@, p as int),
                            pcs_len == nodes@[p as int].children@.len(),
                            k <= pcs_len,
                            m == max_child_access_excluding(
                                nodes@,
                                allowed@,
                                accesses@,
                                nodes@[p as int].children@.take(k as int),
                                i as int,
                            ),
                        decreases pcs_len - k,
                    {
                        let c = nodes[p].children[k];
                        if c != i {
                            let e = exposed_as_of(nodes, allowed, c);
                            m = m.max_level(accesses[c].max_child_access(e));
                        }
                        proof {
                            let csq = nodes@[p as int].children@;
                            assert(csq.take(k as int + 1).drop_last() =~= csq.take(k as int));
                            assert(csq.take(k as int + 1).last() == c);
                        }
                        k += 1;
                    }
                    proof {
                        assert(nodes@[p as int].children@.take(pcs_len as int) =~= nodes@[
                            p as int
                        ].children@);
                    }
                    let ep = exposed_as_of(nodes, allowed, p);
                    accesses[p].max_foreign_access.max_level(ep.max_level(m))
                },
                None => WildcardAccessLevel::NoAccess,
            };
            let rec = accesses[i];
            let counters_ok = rec.child_reads as usize == cr && rec.child_writes as usize == cw;
            if !(rec.max_foreign_access == expected && counters_ok) {
                proof {
                    assert(!node_consistent(nodes@, allowed@, accesses@, i as int));
                }
                return false;
            }
            proof {
                assert(node_consistent(nodes@, allowed@, accesses@, i as int));
            }
            i += 1;
        }
        true
    }
}

} // verus!
