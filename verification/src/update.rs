use vstd::prelude::*;

use vstd::arithmetic::mul::lemma_mul_inequality;
use vstd::arithmetic::power::lemma_pow1;
use vstd::arithmetic::power::lemma_pow_adds;
use vstd::arithmetic::power::lemma_pow_increases;
use vstd::arithmetic::power::lemma_pow_positive;
use vstd::arithmetic::power::pow;

use crate::access::WildcardAccessLevel;
use crate::access::level_max;
use crate::access::lvl;
use crate::consistency::consistent;
use crate::consistency::count_children_at_least;
use crate::consistency::counters_ok;
use crate::consistency::lemma_count_congruent_members;
use crate::consistency::lemma_count_nonneg;
use crate::consistency::lemma_count_one_change;
use crate::consistency::lemma_count_pos_exists;
use crate::consistency::lemma_two_qualifiers;
use crate::consistency::mca_at;
use crate::consistency::node_counters_ok;
use crate::consistency::nodes_with_exposed;
use crate::tracking::WildcardAccessTracking;
use crate::tracking::spec_max_child_access;
use crate::tree::Node;
use crate::tree::exposed_as_of;
use crate::tree::s_exposed_as;
use crate::tree::in_ancestor_chain;
use crate::tree::lemma_chain_le;
use crate::tree::lemma_chain_parent;
use crate::tree::lemma_chain_unique_child;
use crate::tree::wf_node;
use crate::tree::wf_nodes;

verus! {

/// Termination measure for the downward propagation: a queued node at
/// index `i` of an arena of `n` nodes weighs `(n+1)^(n-i)`.  Popping an
/// entry and queueing some of its children — each with a strictly larger
/// index, and at most `n` of them — strictly shrinks the total weight.
pub open spec fn stack_measure(s: Seq<(usize, WildcardAccessLevel)>, n: int) -> int
    decreases s.len(),
{
    if s.len() == 0 {
        0
    } else {
        stack_measure(s.drop_last(), n) + pow(n + 1, (n - s.last().0 as int) as nat)
    }
}

proof fn lemma_stack_measure_nonneg(s: Seq<(usize, WildcardAccessLevel)>, n: int)
    requires
        n >= 0,
    ensures
        stack_measure(s, n) >= 0,
    decreases s.len(),
{
    if s.len() > 0 {
        lemma_stack_measure_nonneg(s.drop_last(), n);
        lemma_pow_positive(n + 1, (n - s.last().0 as int) as nat);
    }
}

proof fn lemma_stack_measure_concat(
    s1: Seq<(usize, WildcardAccessLevel)>,
    s2: Seq<(usize, WildcardAccessLevel)>,
    n: int,
)
    ensures
        stack_measure(s1 + s2, n) == stack_measure(s1, n) + stack_measure(s2, n),
    decreases s2.len(),
{
    if s2.len() == 0 {
        assert(s1 + s2 =~= s1);
    } else {
        lemma_stack_measure_concat(s1, s2.drop_last(), n);
        assert((s1 + s2).drop_last() =~= s1 + s2.drop_last());
        assert((s1 + s2).last() == s2.last());
    }
}

/// Entries strictly below index `c` in weight — that is, strictly above
/// `c` in the arena — are each bounded by the weight of a child of `c`.
proof fn lemma_stack_measure_bound(s: Seq<(usize, WildcardAccessLevel)>, n: int, c: int)
    requires
        0 <= c < n,
        forall|k: int|
            0 <= k < s.len() ==> c < (#[trigger] s[k]).0 as int && (s[k].0 as int) <= n,
    ensures
        stack_measure(s, n) <= s.len() * pow(n + 1, (n - c - 1) as nat),
    decreases s.len(),
{
    if s.len() == 0 {
    } else {
        lemma_stack_measure_bound(s.drop_last(), n, c);
        lemma_pow_increases((n + 1) as nat, (n - s.last().0 as int) as nat, (n - c - 1) as nat);
        lemma_pow_positive(n + 1, (n - c - 1) as nat);
        assert((s.len() - 1) * pow(n + 1, (n - c - 1) as nat) + pow(n + 1, (n - c - 1) as nat)
            == s.len() * pow(n + 1, (n - c - 1) as nat)) by (nonlinear_arith);
    }
}

/// The child counters `(child_reads, child_writes)` of the updated node's
/// direct parent after the threshold crossings implied by `old_l -> new_l`:
/// an upgrade into `Write` gains a writing child, one out of `NoAccess`
/// gains a reading child, and downgrades lose them symmetrically (a
/// counter already at zero records no further loss).
pub open spec fn crossed_counters(
    before: WildcardAccessTracking,
    old_l: WildcardAccessLevel,
    new_l: WildcardAccessLevel,
) -> (int, int) {
    if lvl(old_l) < lvl(new_l) {
        (
            before.child_reads + if old_l == WildcardAccessLevel::NoAccess {
                1int
            } else {
                0int
            },
            before.child_writes + if new_l == WildcardAccessLevel::Write {
                1int
            } else {
                0int
            },
        )
    } else {
        (
            before.child_reads - if new_l == WildcardAccessLevel::NoAccess && before.child_reads
                > 0 {
                1int
            } else {
                0int
            },
            before.child_writes - if old_l == WildcardAccessLevel::Write && before.child_writes
                > 0 {
                1int
            } else {
                0int
            },
        )
    }
}

/// The updated node's parent contributes nothing of its own to its
/// children's foreign levels: no other child subtree is counted, its own
/// foreign region is empty, and it is not exposed.  Every sibling of the
/// updated node then sees exactly the updated branch's contribution.
pub open spec fn parent_otherwise_silent(
    ns: Seq<Node>,
    al: Seq<WildcardAccessLevel>,
    rs: Seq<WildcardAccessTracking>,
    id: int,
) -> bool {
    match ns[id].parent {
        Some(p) => rs[p as int].child_writes == 0 && rs[p as int].child_reads == 0
            && rs[p as int].max_foreign_access == WildcardAccessLevel::NoAccess
            && s_exposed_as(ns, al, p as int) == WildcardAccessLevel::NoAccess,
        None => false,
    }
}

/// The updated node's parent is silent except for one counted reading
/// child: that sole dominant sibling is the only one whose foreign level
/// an exposure change below `Write` can move.
pub open spec fn parent_with_sole_reader(
    ns: Seq<Node>,
    al: Seq<WildcardAccessLevel>,
    rs: Seq<WildcardAccessTracking>,
    id: int,
) -> bool {
    match ns[id].parent {
        Some(p) => rs[p as int].child_reads == 1 && rs[p as int].max_foreign_access
            == WildcardAccessLevel::NoAccess && s_exposed_as(ns, al, p as int)
            == WildcardAccessLevel::NoAccess,
        None => false,
    }
}

/// How a single child's two threshold tests move when its
/// `max_child_access` goes from `po` to `pn`.
pub open spec fn crossing_delta(
    po: WildcardAccessLevel,
    pn: WildcardAccessLevel,
    t: int,
) -> int {
    (if lvl(pn) >= t {
        1int
    } else {
        0int
    }) - (if lvl(po) >= t {
        1int
    } else {
        0int
    })
}

/// On entry to an update the counter equations held in the prior state,
/// with node `id` exposed at `old_l`.  In the present state — `id` now
/// effectively at `new_l` — every equation still holds except the direct
/// parent's, whose counters miss exactly the crossing of `id`'s own
/// `max_child_access`.
proof fn lemma_counters_at_entry(
    ns: Seq<Node>,
    al: Seq<WildcardAccessLevel>,
    rs: Seq<WildcardAccessTracking>,
    id: int,
    old_l: WildcardAccessLevel,
    new_l: WildcardAccessLevel,
)
    requires
        wf_nodes(ns),
        ns.len() <= usize::MAX,
        0 <= id < ns.len(),
        al.len() == ns.len(),
        rs.len() == ns.len(),
        s_exposed_as(ns, al, id) == new_l,
        counters_ok(nodes_with_exposed(ns, id), al.update(id, old_l), rs),
    ensures
        forall|i: int|
            0 <= i < ns.len() && (match ns[id].parent {
                Some(q) => i != q as int,
                None => true,
            }) ==> #[trigger] node_counters_ok(ns, al, rs, i),
        ns[id].parent matches Some(q) ==> rs[q as int].child_reads as int
            == count_children_at_least(ns, al, rs, ns[q as int].children@, 1) - crossing_delta(
            spec_max_child_access(rs[id], old_l),
            spec_max_child_access(rs[id], new_l),
            1,
        ) && rs[q as int].child_writes as int == count_children_at_least(
            ns,
            al,
            rs,
            ns[q as int].children@,
            2,
        ) - crossing_delta(
            spec_max_child_access(rs[id], old_l),
            spec_max_child_access(rs[id], new_l),
            2,
        ),
{
    let ns1 = nodes_with_exposed(ns, id);
    let al1 = al.update(id, old_l);
    assert(s_exposed_as(ns1, al1, id) == old_l);
    assert(mca_at(ns1, al1, rs, id) == spec_max_child_access(rs[id], old_l));
    assert(mca_at(ns, al, rs, id) == spec_max_child_access(rs[id], new_l));
    assert forall|i: int|
        0 <= i < ns.len() && (match ns[id].parent {
            Some(q) => i != q as int,
            None => true,
        }) implies #[trigger] node_counters_ok(ns, al, rs, i) by {
        assert(node_counters_ok(ns1, al1, rs, i));
        assert(wf_node(ns, i));
        assert(ns1[i].children@ == ns[i].children@);
        assert forall|j: int| 0 <= j < ns[i].children@.len() implies mca_at(
            ns1,
            al1,
            rs,
            (#[trigger] ns[i].children@[j]) as int,
        ) == mca_at(ns, al, rs, ns[i].children@[j] as int) by {
            let cc = ns[i].children@[j];
            if cc as int == id {
                assert(ns[id].parent == Some(i as usize));
                assert(false);
            }
        };
        lemma_count_congruent_members(ns1, al1, rs, ns, al, rs, ns[i].children@, 1);
        lemma_count_congruent_members(ns1, al1, rs, ns, al, rs, ns[i].children@, 2);
    };
    match ns[id].parent {
        Some(q) => {
            assert(wf_node(ns, id));
            assert(wf_node(ns, q as int));
            assert(node_counters_ok(ns1, al1, rs, q as int));
            assert(ns1[q as int].children@ == ns[q as int].children@);
            assert forall|j: int|
                0 <= j < ns[q as int].children@.len() && ns[q as int].children@[j] != (
                id as usize) implies mca_at(
                ns1,
                al1,
                rs,
                (#[trigger] ns[q as int].children@[j]) as int,
            ) == mca_at(ns, al, rs, ns[q as int].children@[j] as int) by {};
            lemma_count_one_change(
                ns1,
                al1,
                rs,
                ns,
                al,
                rs,
                ns[q as int].children@,
                1,
                id as usize,
            );
            lemma_count_one_change(
                ns1,
                al1,
                rs,
                ns,
                al,
                rs,
                ns[q as int].children@,
                2,
                id as usize,
            );
        },
        None => {},
    }
}

/// How the record of the updated node's direct parent relates to its
/// prior value once an update ran: its foreign level is untouched, and
/// its child counters are unchanged when the updated node's
/// `max_child_access` did not move, else adjusted by exactly the
/// threshold crossings of that move.
pub open spec fn parent_record_updated(
    before: WildcardAccessTracking,
    after: WildcardAccessTracking,
    mca_old: WildcardAccessLevel,
    mca_new: WildcardAccessLevel,
) -> bool {
    &&& after.max_foreign_access == before.max_foreign_access
    &&& (mca_old == mca_new ==> after == before)
    &&& (mca_old != mca_new ==> after.child_reads as int == crossed_counters(
        before,
        mca_old,
        mca_new,
    ).0 && after.child_writes as int == crossed_counters(before, mca_old, mca_new).1)
}

/// Monotonicity at the adjusted ancestor: an upgrade of the exposure level
/// never lowers either child counter of the updated node's direct parent,
/// and a downgrade never raises one.
pub proof fn lemma_crossed_counters_monotone(
    before: WildcardAccessTracking,
    old_l: WildcardAccessLevel,
    new_l: WildcardAccessLevel,
)
    ensures
        lvl(old_l) < lvl(new_l) ==> crossed_counters(before, old_l, new_l).0
            >= before.child_reads && crossed_counters(before, old_l, new_l).1
            >= before.child_writes,
        lvl(old_l) >= lvl(new_l) ==> crossed_counters(before, old_l, new_l).0
            <= before.child_reads && crossed_counters(before, old_l, new_l).1
            <= before.child_writes,
{
}

/// Somewhere at or above position `lo`, the queue holds node `c` with
/// level `level`.
pub open spec fn queued_at(
    s: Seq<(usize, WildcardAccessLevel)>,
    lo: int,
    c: usize,
    level: WildcardAccessLevel,
) -> bool {
    exists|k: int| lo <= k < s.len() && s[k] == (c, level)
}

/// A queued entry survives any further queueing.
proof fn lemma_queued_persists(
    s1: Seq<(usize, WildcardAccessLevel)>,
    s2: Seq<(usize, WildcardAccessLevel)>,
    lo: int,
    c: usize,
    level: WildcardAccessLevel,
)
    requires
        lo >= 0,
        queued_at(s1, lo, c, level),
        s2.len() >= s1.len(),
        forall|k: int| 0 <= k < s1.len() ==> s2[k] == s1[k],
    ensures
        queued_at(s2, lo, c, level),
{
    let k0 = choose|k0: int| lo <= k0 < s1.len() && s1[k0] == (c, level);
    assert(s2[k0] == (c, level));
}

/// Queue every child but `exclude` at `level`.
fn push_children_at(
    stack: &mut Vec<(usize, WildcardAccessLevel)>,
    children: &Vec<usize>,
    exclude: Option<usize>,
    level: WildcardAccessLevel,
)
    ensures
        final(stack)@.len() >= old(stack)@.len(),
        final(stack)@.len() <= old(stack)@.len() + children@.len(),
        forall|k: int| 0 <= k < old(stack)@.len() ==> final(stack)@[k] == old(stack)@[k],
        forall|k: int|
            old(stack)@.len() <= k < final(stack)@.len() ==> children@.contains(
                (#[trigger] final(stack)@[k]).0,
            ) && (exclude matches Some(e) ==> final(stack)@[k].0 != e) && final(stack)@[k].1
                == level,
        forall|j: int|
            0 <= j < children@.len() && (exclude matches Some(e) ==> children@[j] != e)
                ==> queued_at(
                final(stack)@,
                old(stack)@.len() as int,
                #[trigger] children@[j],
                level,
            ),
{
    let ghost s0 = stack@;
    let mut j: usize = 0;
    while j < children.len()
        invariant
            j <= children@.len(),
            stack@.len() >= s0.len(),
            stack@.len() <= s0.len() + j,
            forall|k: int| 0 <= k < s0.len() ==> stack@[k] == s0[k],
            forall|k: int|
                s0.len() <= k < stack@.len() ==> children@.contains(
                    (#[trigger] stack@[k]).0,
                ) && (exclude matches Some(e) ==> stack@[k].0 != e) && stack@[k].1 == level,
            forall|jj: int|
                0 <= jj < j && (exclude matches Some(e) ==> children@[jj] != e) ==> queued_at(
                    stack@,
                    s0.len() as int,
                    #[trigger] children@[jj],
                    level,
                ),
        decreases children@.len() - j,
    {
        let ghost s_it = stack@;
        let c = children[j];
        let skip = match exclude {
            Some(e) => c == e,
            None => false,
        };
        if !skip {
            stack.push((c, level));
            proof {
                assert(children@[j as int] == c);
                assert(children@.contains(c));
                assert(stack@[stack@.len() - 1] == (c, level));
                assert(queued_at(stack@, s0.len() as int, c, level));
            }
        }
        proof {
            assert forall|jj: int|
                0 <= jj < j + 1 && (exclude matches Some(e) ==> children@[jj] != e)
                    implies queued_at(stack@, s0.len() as int, #[trigger] children@[jj], level) by {
                if jj < j {
                    lemma_queued_persists(s_it, stack@, s0.len() as int, children@[jj], level);
                } else {
                    assert(children@[jj] == c);
                    assert(!skip);
                }
            };
        }
        j += 1;
    }
}

/// The first child other than `exclude` whose subtree already reaches
/// `threshold` on its own.
fn find_child_at_least(
    children: &Vec<usize>,
    exclude: Option<usize>,
    threshold: WildcardAccessLevel,
    nodes: &Vec<Node>,
    allowed: &Vec<WildcardAccessLevel>,
    accesses: &Vec<WildcardAccessTracking>,
) -> (r: Option<usize>)
    requires
        allowed@.len() == nodes@.len(),
        accesses@.len() == nodes@.len(),
        forall|j: int|
            0 <= j < children@.len() ==> ((#[trigger] children@[j]) as int) < nodes@.len(),
    ensures
        r matches Some(c) ==> children@.contains(c) && (exclude matches Some(e) ==> c != e)
            && lvl(
            spec_max_child_access(
                accesses@[c as int],
                s_exposed_as(nodes@, allowed@, c as int),
            ),
        ) >= lvl(threshold),
        r is None ==> forall|j: int|
            0 <= j < children@.len() && (exclude matches Some(e) ==> children@[j] != e) ==> lvl(
                spec_max_child_access(
                    accesses@[(#[trigger] children@[j]) as int],
                    s_exposed_as(nodes@, allowed@, children@[j] as int),
                ),
            ) < lvl(threshold),
{
    let mut j: usize = 0;
    while j < children.len()
        invariant
            allowed@.len() == nodes@.len(),
            accesses@.len() == nodes@.len(),
            forall|jj: int|
                0 <= jj < children@.len() ==> ((#[trigger] children@[jj]) as int) < nodes@.len(),
            j <= children@.len(),
            forall|jj: int|
                0 <= jj < j && (exclude matches Some(e) ==> children@[jj] != e) ==> lvl(
                    spec_max_child_access(
                        accesses@[(#[trigger] children@[jj]) as int],
                        s_exposed_as(nodes@, allowed@, children@[jj] as int),
                    ),
                ) < lvl(threshold),
        decreases children@.len() - j,
    {
        let c = children[j];
        let skip = match exclude {
            Some(e) => c == e,
            None => false,
        };
        if !skip {
            let e_c = exposed_as_of(nodes, allowed, c);
            if accesses[c].max_child_access(e_c).rank() >= threshold.rank() {
                proof {
                    assert(children@[j as int] == c);
                    assert(children@.contains(c));
                }
                return Some(c);
            }
        }
        j += 1;
    }
    None
}

/// Queue those of a node's children whose `max_foreign_access` must be
/// re-derived because one of the quantities feeding it changes from
/// `old_access_type` to `access_type`.
///
/// A child's `max_foreign_access` is the max of the node's own
/// `max_foreign_access`, the node's exposure level, and the other
/// children's `max_child_access`.  Only one of those quantities is
/// changing; the strongest level among the unchanged ones is
/// `other_factors`.  `rec` carries the node's child counters, `children`
/// its child list, and `exclude` names a child that must not be queued
/// (the branch an upward walk arrived from).
///
/// The counting rule: census the children that already reach the level
/// being crossed.  If none does, the changing value has uniform influence
/// and every child is queued; if exactly one does, that child dominates
/// all the others whatever the change does, so only it needs
/// re-examination; if two or more do, they are already mutually foreign
/// at this level and no child needs an update.  When a downgrade crosses
/// out of `Write`, what is left behind at each child is decided by the
/// `Read` census in the same three-way fashion: the receding `Write` may
/// uncover a weaker sibling's influence, which would otherwise be lost.
fn push_relevant_children(
    stack: &mut Vec<(usize, WildcardAccessLevel)>,
    other_factors: WildcardAccessLevel,
    access_type: WildcardAccessLevel,
    old_access_type: WildcardAccessLevel,
    rec: WildcardAccessTracking,
    children: &Vec<usize>,
    exclude: Option<usize>,
    nodes: &Vec<Node>,
    allowed: &Vec<WildcardAccessLevel>,
    accesses: &Vec<WildcardAccessTracking>,
)
    requires
        allowed@.len() == nodes@.len(),
        accesses@.len() == nodes@.len(),
        forall|j: int|
            0 <= j < children@.len() ==> ((#[trigger] children@[j]) as int) < nodes@.len(),
    ensures
        final(stack)@.len() >= old(stack)@.len(),
        final(stack)@.len() <= old(stack)@.len() + children@.len(),
        forall|k: int| 0 <= k < old(stack)@.len() ==> final(stack)@[k] == old(stack)@[k],
        forall|k: int|
            old(stack)@.len() <= k < final(stack)@.len() ==> children@.contains(
                (#[trigger] final(stack)@[k]).0,
            ) && (exclude matches Some(e) ==> final(stack)@[k].0 != e),
        (rec.child_writes == 0 && rec.child_reads == 0 && lvl(
            level_max(access_type, old_access_type),
        ) >= lvl(other_factors)) ==> (forall|j: int|
            0 <= j < children@.len() && (exclude matches Some(e) ==> children@[j] != e)
                ==> queued_at(
                final(stack)@,
                old(stack)@.len() as int,
                #[trigger] children@[j],
                level_max(access_type, other_factors),
            )) && (forall|k: int|
            old(stack)@.len() <= k < final(stack)@.len() ==> (#[trigger] final(stack)@[k]).1
                == level_max(access_type, other_factors)),
        (rec.child_reads == 1 && lvl(level_max(access_type, old_access_type)) <= 1 && lvl(
            old_access_type,
        ) < lvl(access_type) && lvl(other_factors) <= lvl(access_type)) ==> ((exists|j: int|
            0 <= j < children@.len() && (exclude matches Some(e) ==> children@[j] != e) && lvl(
                spec_max_child_access(
                    accesses@[(#[trigger] children@[j]) as int],
                    s_exposed_as(nodes@, allowed@, children@[j] as int),
                ),
            ) >= 1 && queued_at(
                final(stack)@,
                old(stack)@.len() as int,
                children@[j],
                access_type,
            )) || (forall|j: int|
            0 <= j < children@.len() && (exclude matches Some(e) ==> children@[j] != e) ==> lvl(
                spec_max_child_access(
                    accesses@[(#[trigger] children@[j]) as int],
                    s_exposed_as(nodes@, allowed@, children@[j] as int),
                ),
            ) < 1)) && (forall|k: int|
            old(stack)@.len() <= k < final(stack)@.len() ==> (#[trigger] final(stack)@[k]).1
                == access_type),
{
    // The change is invisible if the unchanged factors dominate it.
    if access_type.max_level(old_access_type).rank() < other_factors.rank() {
        return ;
    }
    // The effective levels the children see cannot drop below the factors
    // that are not changing.
    let eff_new = access_type.max_level(other_factors);
    let eff_old = old_access_type.max_level(other_factors);
    let is_downgrade = eff_new.rank() < eff_old.rank();
    // The level being crossed decides which counter holds the census.
    let write_census = eff_new.max_level(eff_old).rank() == 2;
    let child_accesses: u16 = if write_census {
        rec.child_writes
    } else {
        rec.child_reads
    };
    let ghost s0 = stack@;
    if child_accesses == 0 {
        // No child reaches the crossed level on its own, so the changing
        // value has uniform influence on every child.
        if write_census && is_downgrade && rec.child_reads > 0 {
            // The Write influence recedes below Write; what remains at
            // each child is decided by the Read census.
            if rec.child_reads == 1 {
                match find_child_at_least(
                    children,
                    exclude,
                    WildcardAccessLevel::Read,
                    nodes,
                    allowed,
                    accesses,
                ) {
                    Some(x) => {
                        // The sole reader loses the Write influence
                        // outright; every other child still sees its Read.
                        let floor = eff_new.max_level(WildcardAccessLevel::Read);
                        let mut j: usize = 0;
                        while j < children.len()
                            invariant
                                j <= children@.len(),
                                stack@.len() >= s0.len(),
                                stack@.len() <= s0.len() + j,
                                forall|k: int| 0 <= k < s0.len() ==> stack@[k] == s0[k],
                                forall|k: int|
                                    s0.len() <= k < stack@.len() ==> children@.contains(
                                        (#[trigger] stack@[k]).0,
                                    ) && (exclude matches Some(e) ==> stack@[k].0 != e),
                            decreases children@.len() - j,
                        {
                            let c = children[j];
                            let skip = match exclude {
                                Some(e) => c == e,
                                None => false,
                            };
                            if !skip {
                                let lv = if c == x {
                                    eff_new
                                } else {
                                    floor
                                };
                                stack.push((c, lv));
                                proof {
                                    assert(children@[j as int] == c);
                                    assert(children@.contains(c));
                                }
                            }
                            j += 1;
                        }
                    },
                    None => {
                        // The reader is the excluded branch itself, whose
                        // new level is already part of eff_new.
                        push_children_at(stack, children, exclude, eff_new);
                    },
                }
            } else {
                // Two or more readers: every child keeps a Read floor.
                push_children_at(
                    stack,
                    children,
                    exclude,
                    eff_new.max_level(WildcardAccessLevel::Read),
                );
            }
        } else {
            push_children_at(stack, children, exclude, eff_new);
        }
    } else if child_accesses == 1 {
        // Exactly one child already reaches the crossed level: for every
        // other child the foreign level is defined by that one child, so
        // only it may need re-examination.
        let census_level = if write_census {
            WildcardAccessLevel::Write
        } else {
            WildcardAccessLevel::Read
        };
        match find_child_at_least(children, exclude, census_level, nodes, allowed, accesses) {
            Some(x) => {
                // On a downgrade out of Write the dominant child itself
                // may still see a weaker reader among its siblings.
                let lx = if write_census && is_downgrade && rec.child_reads >= 2 {
                    eff_new.max_level(WildcardAccessLevel::Read)
                } else {
                    eff_new
                };
                stack.push((x, lx));
                proof {
                    if !write_census && lvl(old_access_type) < lvl(access_type) && lvl(
                        other_factors,
                    ) <= lvl(access_type) {
                        assert(lx == access_type);
                        assert(stack@[stack@.len() - 1] == (x, access_type));
                        assert(queued_at(stack@, s0.len() as int, x, access_type));
                        let jx = choose|jx: int|
                            0 <= jx < children@.len() && children@[jx] == x;
                        assert(children@[jx] == x);
                    }
                }
            },
            None => {},
        }
    } else {
        // Two or more children already reach the crossed level: they are
        // already mutually foreign at it, independent of the change, so no
        // child's foreign level moves.
    }
}

impl WildcardAccessTracking {
    /// Propagate a change of node `id`'s exposure level from
    /// `old_access_type` to `access_type` through one location's records.
    ///
    /// `old_access_type` must be the level most recently supplied for this
    /// node (`NoAccess` if it was never supplied), and the counter
    /// equations must have held for the records under that old level;
    /// they hold again, now under the new level, when the call returns.
    /// Equal levels are a verified no-op.  The node's own record is never
    /// touched, its parent's moves by exactly the crossing of the node's
    /// `max_child_access`, and under an otherwise-silent parent every
    /// sibling's foreign level is re-derived to the branch's new
    /// contribution.  The call must run to completion before any other
    /// query or update touches the same location's records.
    #[verifier::rlimit(100)]
    pub fn update_exposure(
        id: usize,
        old_access_type: WildcardAccessLevel,
        access_type: WildcardAccessLevel,
        nodes: &Vec<Node>,
        allowed: &Vec<WildcardAccessLevel>,
        accesses: &mut Vec<WildcardAccessTracking>,
    )
        requires
            wf_nodes(nodes@),
            id < nodes@.len(),
            allowed@.len() == nodes@.len(),
            old(accesses)@.len() == nodes@.len(),
            forall|i: int|
                0 <= i < old(accesses)@.len() ==> (#[trigger] old(accesses)@[i]).child_reads
                    < u16::MAX && old(accesses)@[i].child_writes < u16::MAX,
            s_exposed_as(nodes@, allowed@, id as int) == access_type,
            counters_ok(
                nodes_with_exposed(nodes@, id as int),
                allowed@.update(id as int, old_access_type),
                old(accesses)@,
            ),
        ensures
            final(accesses)@.len() == old(accesses)@.len(),
            old_access_type == access_type ==> final(accesses)@ == old(accesses)@,
            final(accesses)@[id as int] == old(accesses)@[id as int],
            forall|i: int|
                0 <= i < nodes@.len() && !(in_ancestor_chain(nodes@, i, id as int) && i != id)
                    ==> (#[trigger] final(accesses)@[i]).child_reads == old(accesses)@[
                    i
                ].child_reads && final(accesses)@[i].child_writes == old(accesses)@[
                    i
                ].child_writes,
            nodes@[id as int].parent matches Some(p) ==> parent_record_updated(
                old(accesses)@[p as int],
                final(accesses)@[p as int],
                spec_max_child_access(old(accesses)@[id as int], old_access_type),
                spec_max_child_access(old(accesses)@[id as int], access_type),
            ),
            counters_ok(nodes@, allowed@, final(accesses)@),
            (parent_otherwise_silent(nodes@, allowed@, old(accesses)@, id as int)
                && spec_max_child_access(old(accesses)@[id as int], old_access_type)
                != spec_max_child_access(old(accesses)@[id as int], access_type)) ==> (nodes@[
                id as int
            ].parent matches Some(p0) ==> forall|j: int|
                0 <= j < nodes@[p0 as int].children@.len() && (#[trigger] nodes@[
                    p0 as int
                ].children@[j]) != id ==> final(accesses)@[
                    nodes@[p0 as int].children@[j] as int
                ].max_foreign_access == spec_max_child_access(
                    old(accesses)@[id as int],
                    access_type,
                )),
            (old(accesses)@[id as int].child_writes == 0 && old(accesses)@[
                id as int
            ].child_reads == 0 && lvl(level_max(access_type, old_access_type)) >= lvl(
                old(accesses)@[id as int].max_foreign_access,
            ) && old_access_type != access_type) ==> forall|j: int|
                0 <= j < nodes@[id as int].children@.len() ==> final(accesses)@[
                    (#[trigger] nodes@[id as int].children@[j]) as int
                ].max_foreign_access == level_max(
                    access_type,
                    old(accesses)@[id as int].max_foreign_access,
                ),
            (parent_with_sole_reader(nodes@, allowed@, old(accesses)@, id as int) && lvl(
                spec_max_child_access(old(accesses)@[id as int], old_access_type),
            ) == 0 && lvl(spec_max_child_access(old(accesses)@[id as int], access_type)) == 1)
                ==> (nodes@[id as int].parent matches Some(p0) ==> forall|j: int|
                0 <= j < nodes@[p0 as int].children@.len() && (#[trigger] nodes@[
                    p0 as int
                ].children@[j]) != id && lvl(
                    spec_max_child_access(
                        old(accesses)@[nodes@[p0 as int].children@[j] as int],
                        s_exposed_as(nodes@, allowed@, nodes@[p0 as int].children@[j] as int),
                    ),
                ) >= 1 ==> final(accesses)@[
                    nodes@[p0 as int].children@[j] as int
                ].max_foreign_access == spec_max_child_access(
                    old(accesses)@[id as int],
                    access_type,
                )),
    {
        let n = nodes.len();
        // If the exposure level does not change, nothing anywhere changes.
        if old_access_type == access_type {
            proof {
                lemma_counters_at_entry(
                    nodes@,
                    allowed@,
                    accesses@,
                    id as int,
                    old_access_type,
                    access_type,
                );
                assert forall|i: int| 0 <= i < nodes@.len() implies #[trigger] node_counters_ok(
                    nodes@,
                    allowed@,
                    accesses@,
                    i,
                ) by {
                    match nodes@[id as int].parent {
                        Some(q) => {
                            if i == q as int {
                                assert(crossing_delta(
                                    spec_max_child_access(accesses@[id as int], old_access_type),
                                    spec_max_child_access(accesses@[id as int], access_type),
                                    1,
                                ) == 0);
                                assert(crossing_delta(
                                    spec_max_child_access(accesses@[id as int], old_access_type),
                                    spec_max_child_access(accesses@[id as int], access_type),
                                    2,
                                ) == 0);
                            }
                        },
                        None => {},
                    }
                };
            }
            return ;
        }
        // Nodes whose max_foreign_access must still be set to the paired level.
        let mut stack: Vec<(usize, WildcardAccessLevel)> = Vec::new();

        // Phase A: the node's own children.  They see the node's exposure
        // level directly; the node's own foreign region and its other
        // children are the unchanged factors.
        proof {
            assert(wf_node(nodes@, id as int));
        }
        let src_access = accesses[id];
        push_relevant_children(
            &mut stack,
            src_access.max_foreign_access,
            access_type,
            old_access_type,
            src_access,
            &nodes[id].children,
            None,
            nodes,
            allowed,
            accesses,
        );
        proof {
            // A child of the updated node sits above it in arena order, so
            // it cannot lie on the node's own ancestor chain.
            assert forall|k: int| 0 <= k < stack@.len() implies !in_ancestor_chain(
                nodes@,
                ((#[trigger] stack@[k]).0) as int,
                id as int,
            ) by {
                let c = stack@[k].0;
                assert(nodes@[id as int].children@.contains(c));
                let j = choose|j: int|
                    0 <= j < nodes@[id as int].children@.len() && nodes@[id as int].children@[j]
                        == c;
                assert((id as int) < c as int);
                if in_ancestor_chain(nodes@, c as int, id as int) {
                    lemma_chain_le(nodes@, c as int, id as int);
                }
            };
        }
        proof {
            // With no counted child and an undominated change, every child
            // of the updated node is queued at the effective new level.
            if old(accesses)@[id as int].child_writes == 0 && old(accesses)@[
                id as int
            ].child_reads == 0 && lvl(level_max(access_type, old_access_type)) >= lvl(
                old(accesses)@[id as int].max_foreign_access,
            ) {
                let la = level_max(access_type, old(accesses)@[id as int].max_foreign_access);
                let csi = nodes@[id as int].children@;
                assert(src_access == old(accesses)@[id as int]);
                assert forall|j: int| 0 <= j < csi.len() implies queued_at(
                    stack@,
                    0,
                    #[trigger] csi[j],
                    la,
                ) by {};
                assert forall|k: int|
                    0 <= k < stack@.len() && nodes@[((#[trigger] stack@[k]).0) as int].parent
                        == Some(id) implies stack@[k].1 == la by {};
            }
        }

        // Phase B: walk up the ancestors, adjusting their child counters by
        // the threshold crossings the changed branch's max_child_access
        // makes, and queueing cousins whose foreign level that branch
        // feeds.  The walk stops at the first ancestor whose own
        // max_child_access is unchanged.  When the node's cached counters
        // already dominate both exposure levels, its max_child_access does
        // not move at all and no ancestor is touched.
        let prev_old_mca0 = src_access.max_child_access(old_access_type);
        let prev_new_mca0 = src_access.max_child_access(access_type);
        let mut prev: usize = id;
        let mut prev_old_mca = prev_old_mca0;
        let mut prev_new_mca = prev_new_mca0;
        proof {
            lemma_counters_at_entry(
                nodes@,
                allowed@,
                accesses@,
                id as int,
                old_access_type,
                access_type,
            );
            assert(mca_at(nodes@, allowed@, accesses@, id as int) == prev_new_mca0);
        }
        if prev_old_mca != prev_new_mca {
            loop
                invariant_except_break
                    forall|i: int|
                        0 <= i < prev ==> (#[trigger] accesses@[i]).child_reads < u16::MAX
                            && accesses@[i].child_writes < u16::MAX,
                    nodes@[id as int].parent matches Some(p0) ==> (if prev == id {
                        accesses@[p0 as int] == old(accesses)@[p0 as int]
                    } else {
                        parent_record_updated(
                            old(accesses)@[p0 as int],
                            accesses@[p0 as int],
                            spec_max_child_access(old(accesses)@[id as int], old_access_type),
                            spec_max_child_access(old(accesses)@[id as int], access_type),
                        )
                    }),
                    forall|i: int|
                        0 <= i < n && (match nodes@[prev as int].parent {
                            Some(q) => i != q as int,
                            None => true,
                        }) ==> #[trigger] node_counters_ok(nodes@, allowed@, accesses@, i),
                    nodes@[prev as int].parent matches Some(q) ==> accesses@[
                        q as int
                    ].child_reads as int == count_children_at_least(
                        nodes@,
                        allowed@,
                        accesses@,
                        nodes@[q as int].children@,
                        1,
                    ) - crossing_delta(prev_old_mca, prev_new_mca, 1) && accesses@[
                        q as int
                    ].child_writes as int == count_children_at_least(
                        nodes@,
                        allowed@,
                        accesses@,
                        nodes@[q as int].children@,
                        2,
                    ) - crossing_delta(prev_old_mca, prev_new_mca, 2),
                invariant
                    prev_old_mca != prev_new_mca,
                    mca_at(nodes@, allowed@, accesses@, prev as int) == prev_new_mca,
                    spec_max_child_access(old(accesses)@[id as int], old_access_type)
                        != spec_max_child_access(old(accesses)@[id as int], access_type),
                    prev == id ==> prev_old_mca == spec_max_child_access(
                        old(accesses)@[id as int],
                        old_access_type,
                    ) && prev_new_mca == spec_max_child_access(
                        old(accesses)@[id as int],
                        access_type,
                    ),
                    wf_nodes(nodes@),
                    n == nodes@.len(),
                    allowed@.len() == n,
                    accesses@.len() == n,
                    id < n,
                    prev < n,
                    counters_ok(
                        nodes_with_exposed(nodes@, id as int),
                        allowed@.update(id as int, old_access_type),
                        old(accesses)@,
                    ),
                    forall|i: int|
                        0 <= i < n ==> (#[trigger] accesses@[i]).max_foreign_access == old(
                            accesses,
                        )@[i].max_foreign_access,
                    forall|k: int| 0 <= k < stack@.len() ==> ((#[trigger] stack@[k]).0 as int) < n,
                    in_ancestor_chain(nodes@, prev as int, id as int),
                    accesses@[id as int] == old(accesses)@[id as int],
                    forall|i: int|
                        0 <= i < n && !(in_ancestor_chain(nodes@, i, id as int) && i != id) ==> (
                        #[trigger] accesses@[i]).child_reads == old(accesses)@[i].child_reads
                            && accesses@[i].child_writes == old(accesses)@[i].child_writes,
                    forall|k: int|
                        0 <= k < stack@.len() ==> !in_ancestor_chain(
                            nodes@,
                            ((#[trigger] stack@[k]).0) as int,
                            id as int,
                        ),
                    parent_otherwise_silent(nodes@, allowed@, old(accesses)@, id as int) ==> (
                    nodes@[id as int].parent matches Some(p0) ==> forall|k: int|
                        0 <= k < stack@.len() && nodes@[((#[trigger] stack@[k]).0) as int].parent
                            == Some(p0) && stack@[k].0 != id ==> stack@[k].1
                            == spec_max_child_access(old(accesses)@[id as int], access_type)),
                    parent_otherwise_silent(nodes@, allowed@, old(accesses)@, id as int) ==> (
                    nodes@[id as int].parent matches Some(p0) ==> (prev != id ==> forall|j: int|
                        0 <= j < nodes@[p0 as int].children@.len() && (#[trigger] nodes@[
                            p0 as int
                        ].children@[j]) != id ==> queued_at(
                            stack@,
                            0,
                            nodes@[p0 as int].children@[j],
                            spec_max_child_access(old(accesses)@[id as int], access_type),
                        ))),
                    (old(accesses)@[id as int].child_writes == 0 && old(accesses)@[
                        id as int
                    ].child_reads == 0 && lvl(level_max(access_type, old_access_type)) >= lvl(
                        old(accesses)@[id as int].max_foreign_access,
                    )) ==> (forall|k: int|
                        0 <= k < stack@.len() && nodes@[((#[trigger] stack@[k]).0) as int].parent
                            == Some(id) ==> stack@[k].1 == level_max(
                            access_type,
                            old(accesses)@[id as int].max_foreign_access,
                        )) && (forall|j: int|
                        0 <= j < nodes@[id as int].children@.len() ==> queued_at(
                            stack@,
                            0,
                            #[trigger] nodes@[id as int].children@[j],
                            level_max(access_type, old(accesses)@[id as int].max_foreign_access),
                        )),
                    (parent_with_sole_reader(nodes@, allowed@, old(accesses)@, id as int) && lvl(
                        spec_max_child_access(old(accesses)@[id as int], old_access_type),
                    ) == 0 && lvl(spec_max_child_access(old(accesses)@[id as int], access_type))
                        == 1) ==> (nodes@[id as int].parent matches Some(p0) ==> (forall|k: int|
                        0 <= k < stack@.len() && nodes@[((#[trigger] stack@[k]).0) as int].parent
                            == Some(p0) && stack@[k].0 != id ==> stack@[k].1
                            == spec_max_child_access(old(accesses)@[id as int], access_type)) && (
                    prev != id ==> forall|j: int|
                        0 <= j < nodes@[p0 as int].children@.len() && (#[trigger] nodes@[
                            p0 as int
                        ].children@[j]) != id && lvl(
                            spec_max_child_access(
                                old(accesses)@[nodes@[p0 as int].children@[j] as int],
                                s_exposed_as(
                                    nodes@,
                                    allowed@,
                                    nodes@[p0 as int].children@[j] as int,
                                ),
                            ),
                        ) >= 1 ==> queued_at(
                            stack@,
                            0,
                            nodes@[p0 as int].children@[j],
                            spec_max_child_access(old(accesses)@[id as int], access_type),
                        ))),
                ensures
                    (parent_with_sole_reader(nodes@, allowed@, old(accesses)@, id as int) && lvl(
                        spec_max_child_access(old(accesses)@[id as int], old_access_type),
                    ) == 0 && lvl(spec_max_child_access(old(accesses)@[id as int], access_type))
                        == 1) ==> (nodes@[id as int].parent matches Some(p0) ==> (forall|k: int|
                        0 <= k < stack@.len() && nodes@[((#[trigger] stack@[k]).0) as int].parent
                            == Some(p0) && stack@[k].0 != id ==> stack@[k].1
                            == spec_max_child_access(old(accesses)@[id as int], access_type)) && (
                    forall|j: int|
                        0 <= j < nodes@[p0 as int].children@.len() && (#[trigger] nodes@[
                            p0 as int
                        ].children@[j]) != id && lvl(
                            spec_max_child_access(
                                old(accesses)@[nodes@[p0 as int].children@[j] as int],
                                s_exposed_as(
                                    nodes@,
                                    allowed@,
                                    nodes@[p0 as int].children@[j] as int,
                                ),
                            ),
                        ) >= 1 ==> queued_at(
                            stack@,
                            0,
                            nodes@[p0 as int].children@[j],
                            spec_max_child_access(old(accesses)@[id as int], access_type),
                        ))),
                    (old(accesses)@[id as int].child_writes == 0 && old(accesses)@[
                        id as int
                    ].child_reads == 0 && lvl(level_max(access_type, old_access_type)) >= lvl(
                        old(accesses)@[id as int].max_foreign_access,
                    )) ==> (forall|k: int|
                        0 <= k < stack@.len() && nodes@[((#[trigger] stack@[k]).0) as int].parent
                            == Some(id) ==> stack@[k].1 == level_max(
                            access_type,
                            old(accesses)@[id as int].max_foreign_access,
                        )) && (forall|j: int|
                        0 <= j < nodes@[id as int].children@.len() ==> queued_at(
                            stack@,
                            0,
                            #[trigger] nodes@[id as int].children@[j],
                            level_max(access_type, old(accesses)@[id as int].max_foreign_access),
                        )),
                    parent_otherwise_silent(nodes@, allowed@, old(accesses)@, id as int) ==> (
                    nodes@[id as int].parent matches Some(p0) ==> forall|k: int|
                        0 <= k < stack@.len() && nodes@[((#[trigger] stack@[k]).0) as int].parent
                            == Some(p0) && stack@[k].0 != id ==> stack@[k].1
                            == spec_max_child_access(old(accesses)@[id as int], access_type)),
                    parent_otherwise_silent(nodes@, allowed@, old(accesses)@, id as int) ==> (
                    nodes@[id as int].parent matches Some(p0) ==> forall|j: int|
                        0 <= j < nodes@[p0 as int].children@.len() && (#[trigger] nodes@[
                            p0 as int
                        ].children@[j]) != id ==> queued_at(
                            stack@,
                            0,
                            nodes@[p0 as int].children@[j],
                            spec_max_child_access(old(accesses)@[id as int], access_type),
                        )),
                    accesses@.len() == n,
                    forall|k: int| 0 <= k < stack@.len() ==> ((#[trigger] stack@[k]).0 as int) < n,
                    accesses@[id as int] == old(accesses)@[id as int],
                    forall|i: int|
                        0 <= i < n && !(in_ancestor_chain(nodes@, i, id as int) && i != id) ==> (
                        #[trigger] accesses@[i]).child_reads == old(accesses)@[i].child_reads
                            && accesses@[i].child_writes == old(accesses)@[i].child_writes,
                    forall|k: int|
                        0 <= k < stack@.len() ==> !in_ancestor_chain(
                            nodes@,
                            ((#[trigger] stack@[k]).0) as int,
                            id as int,
                        ),
                    nodes@[id as int].parent matches Some(p0) ==> parent_record_updated(
                        old(accesses)@[p0 as int],
                        accesses@[p0 as int],
                        spec_max_child_access(old(accesses)@[id as int], old_access_type),
                        spec_max_child_access(old(accesses)@[id as int], access_type),
                    ),
                    counters_ok(nodes@, allowed@, accesses@),
                decreases prev,
            {
                let p = match nodes[prev].parent {
                    Some(p) => p,
                    None => {
                        proof {
                            // A root carries no pending crossing: every
                            // counter equation already holds.
                            assert forall|i: int|
                                0 <= i < n implies #[trigger] node_counters_ok(
                                nodes@,
                                allowed@,
                                accesses@,
                                i,
                            ) by {};
                        }
                        break ;
                    },
                };
                proof {
                    assert(wf_node(nodes@, prev as int));
                    assert(wf_node(nodes@, p as int));
                    // The parent of a chain member is a strict ancestor of the
                    // updated node.
                    lemma_chain_parent(nodes@, prev as int, p, id as int);
                    lemma_chain_le(nodes@, prev as int, id as int);
                    assert((p as int) < id as int);
                    // The walk adjusts each ancestor once; after the first
                    // step it never returns to the direct parent.
                    if prev != id {
                        match nodes@[id as int].parent {
                            Some(p0u) => {
                                assert(in_ancestor_chain(nodes@, prev as int, p0u as int));
                                lemma_chain_le(nodes@, prev as int, p0u as int);
                                assert(p != p0u);
                            },
                            None => {},
                        }
                    }
                }
                let old_access = accesses[p];
                let mut new_access = old_access;
                // Threshold crossings of the walked branch's max_child_access:
                // an upgrade into Write gains a writing child, one out of
                // NoAccess gains a reading child; downgrades lose them
                // symmetrically.
                let step_upgrade = prev_old_mca.rank() < prev_new_mca.rank();
                if step_upgrade {
                    if prev_new_mca.rank() == 2 {
                        new_access.child_writes = new_access.child_writes + 1;
                    }
                    if prev_old_mca.rank() == 0 {
                        new_access.child_reads = new_access.child_reads + 1;
                    }
                } else {
                    if prev_old_mca.rank() == 2 && new_access.child_writes > 0 {
                        new_access.child_writes = new_access.child_writes - 1;
                    }
                    if prev_new_mca.rank() == 0 && new_access.child_reads > 0 {
                        new_access.child_reads = new_access.child_reads - 1;
                    }
                }
                let ghost rs_pre = accesses@;
                accesses[p] = new_access;
                let exposed_as = exposed_as_of(nodes, allowed, p);
                let old_mca = old_access.max_child_access(exposed_as);
                let new_mca = new_access.max_child_access(exposed_as);
                proof {
                    let nsq = nodes@;
                    let alq = allowed@;
                    let cs_p = nodes@[p as int].children@;
                    // Counting p's children never reads p's own record.
                    assert forall|j: int| 0 <= j < cs_p.len() implies mca_at(
                        nsq,
                        alq,
                        rs_pre,
                        (#[trigger] cs_p[j]) as int,
                    ) == mca_at(nsq, alq, accesses@, cs_p[j] as int) by {
                        assert((p as int) < cs_p[j] as int);
                    };
                    lemma_count_congruent_members(nsq, alq, rs_pre, nsq, alq, accesses@, cs_p, 1);
                    lemma_count_congruent_members(nsq, alq, rs_pre, nsq, alq, accesses@, cs_p, 2);
                    lemma_count_nonneg(nsq, alq, rs_pre, cs_p, 1);
                    lemma_count_nonneg(nsq, alq, rs_pre, cs_p, 2);
                    // The crossing arms moved the stored counters by exactly
                    // the pending delta, so p's equations now hold.
                    assert(nodes@[prev as int].parent == Some(p));
                    assert(rs_pre[p as int].child_reads as int == count_children_at_least(
                        nsq,
                        alq,
                        rs_pre,
                        cs_p,
                        1,
                    ) - crossing_delta(prev_old_mca, prev_new_mca, 1));
                    assert(rs_pre[p as int].child_writes as int == count_children_at_least(
                        nsq,
                        alq,
                        rs_pre,
                        cs_p,
                        2,
                    ) - crossing_delta(prev_old_mca, prev_new_mca, 2));
                    assert(accesses@[p as int] == new_access);
                    assert(accesses@[p as int].child_reads as int == count_children_at_least(
                        nsq,
                        alq,
                        accesses@,
                        cs_p,
                        1,
                    ));
                    assert(accesses@[p as int].child_writes as int == count_children_at_least(
                        nsq,
                        alq,
                        accesses@,
                        cs_p,
                        2,
                    ));
                    assert(node_counters_ok(nsq, alq, accesses@, p as int));
                    // Nodes away from p and its parent keep their equations.
                    assert forall|i: int|
                        0 <= i < n && i != p as int && (match nodes@[p as int].parent {
                            Some(q2) => i != q2 as int,
                            None => true,
                        }) implies #[trigger] node_counters_ok(nsq, alq, accesses@, i) by {
                        assert(node_counters_ok(nsq, alq, rs_pre, i));
                        assert(wf_node(nsq, i));
                        assert forall|j: int| 0 <= j < nsq[i].children@.len() implies mca_at(
                            nsq,
                            alq,
                            rs_pre,
                            (#[trigger] nsq[i].children@[j]) as int,
                        ) == mca_at(nsq, alq, accesses@, nsq[i].children@[j] as int) by {
                            let cc = nsq[i].children@[j];
                            if cc == p {
                                assert(nsq[p as int].parent == Some(i as usize));
                                assert(false);
                            }
                        };
                        lemma_count_congruent_members(
                            nsq,
                            alq,
                            rs_pre,
                            nsq,
                            alq,
                            accesses@,
                            nsq[i].children@,
                            1,
                        );
                        lemma_count_congruent_members(
                            nsq,
                            alq,
                            rs_pre,
                            nsq,
                            alq,
                            accesses@,
                            nsq[i].children@,
                            2,
                        );
                    };
                    // p's own contribution to its parent is now the pending
                    // crossing, carried by the new pair.
                    match nodes@[p as int].parent {
                        Some(q2) => {
                            assert(wf_node(nsq, q2 as int));
                            assert(node_counters_ok(nsq, alq, rs_pre, q2 as int));
                            assert(nsq[q2 as int].children@.contains(p));
                            assert forall|j: int|
                                0 <= j < nsq[q2 as int].children@.len() && nsq[
                                    q2 as int
                                ].children@[j] != p implies mca_at(
                                nsq,
                                alq,
                                rs_pre,
                                (#[trigger] nsq[q2 as int].children@[j]) as int,
                            ) == mca_at(nsq, alq, accesses@, nsq[q2 as int].children@[j] as int)
                                by {};
                            lemma_count_one_change(
                                nsq,
                                alq,
                                rs_pre,
                                nsq,
                                alq,
                                accesses@,
                                nsq[q2 as int].children@,
                                1,
                                p,
                            );
                            lemma_count_one_change(
                                nsq,
                                alq,
                                rs_pre,
                                nsq,
                                alq,
                                accesses@,
                                nsq[q2 as int].children@,
                                2,
                                p,
                            );
                            assert(mca_at(nsq, alq, rs_pre, p as int) == old_mca);
                            assert(mca_at(nsq, alq, accesses@, p as int) == new_mca);
                        },
                        None => {},
                    }
                }
                // The ancestor's other children see the changed branch through
                // its max_child_access; the ancestor's own foreign region and
                // exposure are the unchanged factors.
                let base = if step_upgrade {
                    old_access
                } else {
                    new_access
                };
                let ghost s_b = stack@;
                push_relevant_children(
                    &mut stack,
                    exposed_as.max_level(old_access.max_foreign_access),
                    prev_new_mca,
                    prev_old_mca,
                    base,
                    &nodes[p].children,
                    Some(prev),
                    nodes,
                    allowed,
                    accesses,
                );
                proof {
                    // A cousin queued here shares its parent with the chain
                    // member the walk arrived from, and is not that member, so
                    // it cannot lie on the chain itself.
                    let cs = nodes@[p as int].children@;
                    assert forall|k: int| 0 <= k < stack@.len() implies !in_ancestor_chain(
                        nodes@,
                        ((#[trigger] stack@[k]).0) as int,
                        id as int,
                    ) by {
                        if k < s_b.len() {
                            assert(stack@[k] == s_b[k]);
                        } else {
                            let c = stack@[k].0;
                            assert(cs.contains(c));
                            assert(c != prev);
                            let j = choose|j: int| 0 <= j < cs.len() && cs[j] == c;
                            assert(nodes@[c as int].parent == Some(p));
                            assert(nodes@[prev as int].parent == Some(p));
                            if in_ancestor_chain(nodes@, c as int, id as int) {
                                lemma_chain_unique_child(nodes@, c as int, prev as int, id as int);
                            }
                        }
                    };
                }
                proof {
                    // Under a silent parent, the first step of the walk
                    // queues every sibling of the updated node at the
                    // branch's new contribution, and later steps leave
                    // those entries untouched.
                    if parent_otherwise_silent(nodes@, allowed@, old(accesses)@, id as int) {
                        match nodes@[id as int].parent {
                            Some(p0u) => {
                                let mn_s = spec_max_child_access(
                                    old(accesses)@[id as int],
                                    access_type,
                                );
                                let cs0 = nodes@[p0u as int].children@;
                                if prev == id {
                                    assert(p == p0u);
                                    assert(old_access == old(accesses)@[p0u as int]);
                                    assert(base.child_writes == 0 && base.child_reads == 0);
                                    assert(exposed_as == WildcardAccessLevel::NoAccess);
                                    assert(old_access.max_foreign_access
                                        == WildcardAccessLevel::NoAccess);
                                    assert(prev_new_mca == mn_s);
                                    assert forall|j: int|
                                        0 <= j < cs0.len() && (#[trigger] cs0[j])
                                            != id implies queued_at(
                                        stack@,
                                        0,
                                        cs0[j],
                                        mn_s,
                                    ) by {
                                        assert(queued_at(
                                            stack@,
                                            s_b.len() as int,
                                            cs0[j],
                                            mn_s,
                                        ));
                                        let k0 = choose|k0: int|
                                            s_b.len() <= k0 < stack@.len() && stack@[k0] == (
                                            cs0[j],
                                            mn_s,
                                            );
                                        assert(stack@[k0] == (cs0[j], mn_s));
                                    };
                                    assert forall|k: int|
                                        0 <= k < stack@.len() && nodes@[((#[trigger] stack@[
                                            k
                                        ]).0) as int].parent == Some(p0u) && stack@[k].0
                                            != id implies stack@[k].1 == mn_s by {
                                        if k < s_b.len() {
                                            assert(stack@[k] == s_b[k]);
                                        }
                                    };
                                } else {
                                    assert(p != p0u);
                                    assert forall|j: int|
                                        0 <= j < cs0.len() && (#[trigger] cs0[j])
                                            != id implies queued_at(
                                        stack@,
                                        0,
                                        cs0[j],
                                        mn_s,
                                    ) by {
                                        assert(queued_at(s_b, 0, cs0[j], mn_s));
                                        lemma_queued_persists(s_b, stack@, 0, cs0[j], mn_s);
                                    };
                                    assert forall|k: int|
                                        0 <= k < stack@.len() && nodes@[((#[trigger] stack@[
                                            k
                                        ]).0) as int].parent == Some(p0u) && stack@[k].0
                                            != id implies stack@[k].1 == mn_s by {
                                        if k < s_b.len() {
                                            assert(stack@[k] == s_b[k]);
                                        } else {
                                            let c = stack@[k].0;
                                            assert(nodes@[p as int].children@.contains(c));
                                            let jj = choose|jj: int|
                                                0 <= jj < nodes@[p as int].children@.len()
                                                    && nodes@[p as int].children@[jj] == c;
                                            assert(nodes@[c as int].parent == Some(p));
                                            assert(false);
                                        }
                                    };
                                }
                            },
                            None => {},
                        }
                    }
                }
                proof {
                    // Under a parent whose only contribution is one counted
                    // reader, the first step queues exactly that dominant
                    // sibling at the branch's new level.
                    if parent_with_sole_reader(nodes@, allowed@, old(accesses)@, id as int) && lvl(
                        spec_max_child_access(old(accesses)@[id as int], old_access_type),
                    ) == 0 && lvl(spec_max_child_access(old(accesses)@[id as int], access_type))
                        == 1 {
                        match nodes@[id as int].parent {
                            Some(p0u) => {
                                let mn_s = spec_max_child_access(
                                    old(accesses)@[id as int],
                                    access_type,
                                );
                                let cs0 = nodes@[p0u as int].children@;
                                assert(wf_node(nodes@, id as int));
                                assert(wf_node(nodes@, p0u as int));
                                if prev == id {
                                    assert(p == p0u);
                                    assert(old_access == old(accesses)@[p0u as int]);
                                    assert(base == old_access);
                                    assert(exposed_as == WildcardAccessLevel::NoAccess);
                                    assert(old_access.max_foreign_access
                                        == WildcardAccessLevel::NoAccess);
                                    assert(prev_new_mca == mn_s);
                                    let ns1 = nodes_with_exposed(nodes@, id as int);
                                    let al1 = allowed@.update(id as int, old_access_type);
                                    assert(node_counters_ok(ns1, al1, old(accesses)@, p0u as int));
                                    assert(ns1[p0u as int].children@ == cs0);
                                    lemma_count_pos_exists(ns1, al1, old(accesses)@, cs0, 1);
                                    let jstar = choose|jstar: int|
                                        0 <= jstar < cs0.len() && lvl(
                                            mca_at(ns1, al1, old(accesses)@, cs0[jstar] as int),
                                        ) >= 1;
                                    assert(mca_at(ns1, al1, old(accesses)@, id as int)
                                        == spec_max_child_access(
                                        old(accesses)@[id as int],
                                        old_access_type,
                                    ));
                                    assert(cs0[jstar] != id);
                                    // the override view and the helper's view
                                    // of a sibling agree
                                    assert forall|j: int|
                                        0 <= j < cs0.len() && (#[trigger] cs0[j])
                                            != id implies mca_at(
                                        ns1,
                                        al1,
                                        old(accesses)@,
                                        cs0[j] as int,
                                    ) == spec_max_child_access(
                                        accesses@[cs0[j] as int],
                                        s_exposed_as(nodes@, allowed@, cs0[j] as int),
                                    ) by {
                                        let ci = cs0[j] as int;
                                        assert((p0u as int) < ci);
                                        if in_ancestor_chain(nodes@, ci, id as int) {
                                            assert(nodes@[ci].parent == Some(p0u));
                                            lemma_chain_unique_child(
                                                nodes@,
                                                ci,
                                                id as int,
                                                id as int,
                                            );
                                        }
                                        assert(accesses@[ci] == rs_pre[ci]);
                                        assert(rs_pre[ci].child_reads == old(accesses)@[
                                            ci
                                        ].child_reads);
                                        assert(rs_pre[ci].child_writes == old(accesses)@[
                                            ci
                                        ].child_writes);
                                        assert(rs_pre[ci].max_foreign_access == old(accesses)@[
                                            ci
                                        ].max_foreign_access);
                                        assert(rs_pre[ci] == old(accesses)@[ci]);
                                    };
                                    // the sole reader is real and queued
                                    let jq = choose|jq: int|
                                        0 <= jq < cs0.len() && cs0[jq] != prev && lvl(
                                            spec_max_child_access(
                                                accesses@[cs0[jq] as int],
                                                s_exposed_as(nodes@, allowed@, cs0[jq] as int),
                                            ),
                                        ) >= 1 && queued_at(
                                            stack@,
                                            s_b.len() as int,
                                            cs0[jq],
                                            prev_new_mca,
                                        );
                                    assert forall|j: int|
                                        0 <= j < cs0.len() && (#[trigger] cs0[j]) != id && lvl(
                                            spec_max_child_access(
                                                old(accesses)@[cs0[j] as int],
                                                s_exposed_as(nodes@, allowed@, cs0[j] as int),
                                            ),
                                        ) >= 1 implies queued_at(
                                        stack@,
                                        0,
                                        cs0[j],
                                        mn_s,
                                    ) by {
                                        if j != jq {
                                            lemma_two_qualifiers(
                                                ns1,
                                                al1,
                                                old(accesses)@,
                                                cs0,
                                                1,
                                                j,
                                                jq,
                                            );
                                            assert(false);
                                        }
                                        let k0 = choose|k0: int|
                                            s_b.len() <= k0 < stack@.len() && stack@[k0] == (
                                            cs0[jq],
                                            mn_s,
                                            );
                                        assert(stack@[k0] == (cs0[j], mn_s));
                                    };
                                    assert forall|k: int|
                                        0 <= k < stack@.len() && nodes@[((#[trigger] stack@[
                                            k
                                        ]).0) as int].parent == Some(p0u) && stack@[k].0
                                            != id implies stack@[k].1 == mn_s by {
                                        if k < s_b.len() {
                                            assert(stack@[k] == s_b[k]);
                                        }
                                    };
                                } else {
                                    assert(p != p0u);
                                    assert forall|j: int|
                                        0 <= j < cs0.len() && (#[trigger] cs0[j]) != id && lvl(
                                            spec_max_child_access(
                                                old(accesses)@[cs0[j] as int],
                                                s_exposed_as(nodes@, allowed@, cs0[j] as int),
                                            ),
                                        ) >= 1 implies queued_at(
                                        stack@,
                                        0,
                                        cs0[j],
                                        mn_s,
                                    ) by {
                                        lemma_queued_persists(s_b, stack@, 0, cs0[j], mn_s);
                                    };
                                    assert forall|k: int|
                                        0 <= k < stack@.len() && nodes@[((#[trigger] stack@[
                                            k
                                        ]).0) as int].parent == Some(p0u) && stack@[k].0
                                            != id implies stack@[k].1 == mn_s by {
                                        if k < s_b.len() {
                                            assert(stack@[k] == s_b[k]);
                                        } else {
                                            let c = stack@[k].0;
                                            assert(nodes@[p as int].children@.contains(c));
                                            let jj = choose|jj: int|
                                                0 <= jj < nodes@[p as int].children@.len()
                                                    && nodes@[p as int].children@[jj] == c;
                                            assert(nodes@[c as int].parent == Some(p));
                                            assert(false);
                                        }
                                    };
                                }
                            },
                            None => {},
                        }
                    }
                }
                proof {
                    // The walk only queues children of ancestors, never of
                    // the updated node itself, so its children's entries
                    // survive untouched.
                    if old(accesses)@[id as int].child_writes == 0 && old(accesses)@[
                        id as int
                    ].child_reads == 0 && lvl(level_max(access_type, old_access_type)) >= lvl(
                        old(accesses)@[id as int].max_foreign_access,
                    ) {
                        let la = level_max(
                            access_type,
                            old(accesses)@[id as int].max_foreign_access,
                        );
                        let csi = nodes@[id as int].children@;
                        assert forall|k: int|
                            0 <= k < stack@.len() && nodes@[((#[trigger] stack@[
                                k
                            ]).0) as int].parent == Some(id) implies stack@[k].1 == la by {
                            if k < s_b.len() {
                                assert(stack@[k] == s_b[k]);
                            } else {
                                let c = stack@[k].0;
                                assert(nodes@[p as int].children@.contains(c));
                                let jj = choose|jj: int|
                                    0 <= jj < nodes@[p as int].children@.len() && nodes@[
                                        p as int
                                    ].children@[jj] == c;
                                assert(nodes@[c as int].parent == Some(p));
                                assert(p != id);
                                assert(false);
                            }
                        };
                        assert forall|j: int| 0 <= j < csi.len() implies queued_at(
                            stack@,
                            0,
                            #[trigger] csi[j],
                            la,
                        ) by {
                            lemma_queued_persists(s_b, stack@, 0, csi[j], la);
                        };
                    }
                }
                if old_mca == new_mca {
                    // This ancestor's contribution to its own parent did not
                    // move, so no further ancestor can be affected.
                    proof {
                        assert forall|i: int| 0 <= i < n implies #[trigger] node_counters_ok(
                            nodes@,
                            allowed@,
                            accesses@,
                            i,
                        ) by {
                            match nodes@[p as int].parent {
                                Some(q2) => {
                                    if i == q2 as int {
                                        assert(crossing_delta(old_mca, new_mca, 1) == 0);
                                        assert(crossing_delta(old_mca, new_mca, 2) == 0);
                                    }
                                },
                                None => {},
                            }
                        };
                    }
                    break ;
                }
                prev_old_mca = old_mca;
                prev_new_mca = new_mca;
                prev = p;
            }
        } else {
            proof {
                // No crossing is pending at all: the parent's equation was
                // already exact on entry.
                assert(spec_max_child_access(accesses@[id as int], old_access_type)
                    == spec_max_child_access(accesses@[id as int], access_type));
                assert forall|i: int| 0 <= i < n implies #[trigger] node_counters_ok(
                    nodes@,
                    allowed@,
                    accesses@,
                    i,
                ) by {
                    match nodes@[id as int].parent {
                        Some(q) => {
                            if i == q as int {
                                assert(crossing_delta(
                                    spec_max_child_access(accesses@[id as int], old_access_type),
                                    spec_max_child_access(accesses@[id as int], access_type),
                                    1,
                                ) == 0);
                                assert(crossing_delta(
                                    spec_max_child_access(accesses@[id as int], old_access_type),
                                    spec_max_child_access(accesses@[id as int], access_type),
                                    2,
                                ) == 0);
                            }
                        },
                        None => {},
                    }
                };
            }
        }

        // Phase C: drain the queue.  Each entry gets the foreign level the
        // update that queued it dictates, and its children are examined in
        // turn with the node's own exposure as the unchanged factor.
        loop
            invariant
                wf_nodes(nodes@),
                n == nodes@.len(),
                allowed@.len() == n,
                accesses@.len() == n,
                id < n,
                forall|k: int| 0 <= k < stack@.len() ==> ((#[trigger] stack@[k]).0 as int) < n,
                accesses@[id as int] == old(accesses)@[id as int],
                forall|i: int|
                    0 <= i < n && !(in_ancestor_chain(nodes@, i, id as int) && i != id) ==> (
                    #[trigger] accesses@[i]).child_reads == old(accesses)@[i].child_reads
                        && accesses@[i].child_writes == old(accesses)@[i].child_writes,
                forall|k: int|
                    0 <= k < stack@.len() ==> !in_ancestor_chain(
                        nodes@,
                        ((#[trigger] stack@[k]).0) as int,
                        id as int,
                    ),
                nodes@[id as int].parent matches Some(p0) ==> parent_record_updated(
                    old(accesses)@[p0 as int],
                    accesses@[p0 as int],
                    spec_max_child_access(old(accesses)@[id as int], old_access_type),
                    spec_max_child_access(old(accesses)@[id as int], access_type),
                ),
                counters_ok(nodes@, allowed@, accesses@),
                (parent_otherwise_silent(nodes@, allowed@, old(accesses)@, id as int)
                    && spec_max_child_access(old(accesses)@[id as int], old_access_type)
                    != spec_max_child_access(old(accesses)@[id as int], access_type)) ==> (nodes@[
                    id as int
                ].parent matches Some(p0) ==> forall|k: int|
                    0 <= k < stack@.len() && nodes@[((#[trigger] stack@[k]).0) as int].parent
                        == Some(p0) && stack@[k].0 != id ==> stack@[k].1
                        == spec_max_child_access(old(accesses)@[id as int], access_type)),
                (parent_otherwise_silent(nodes@, allowed@, old(accesses)@, id as int)
                    && spec_max_child_access(old(accesses)@[id as int], old_access_type)
                    != spec_max_child_access(old(accesses)@[id as int], access_type)) ==> (nodes@[
                    id as int
                ].parent matches Some(p0) ==> forall|j: int|
                    0 <= j < nodes@[p0 as int].children@.len() && (#[trigger] nodes@[
                        p0 as int
                    ].children@[j]) != id ==> (queued_at(
                        stack@,
                        0,
                        nodes@[p0 as int].children@[j],
                        spec_max_child_access(old(accesses)@[id as int], access_type),
                    ) || accesses@[nodes@[p0 as int].children@[j] as int].max_foreign_access
                        == spec_max_child_access(old(accesses)@[id as int], access_type))),
                (old(accesses)@[id as int].child_writes == 0 && old(accesses)@[
                    id as int
                ].child_reads == 0 && lvl(level_max(access_type, old_access_type)) >= lvl(
                    old(accesses)@[id as int].max_foreign_access,
                )) ==> (forall|k: int|
                    0 <= k < stack@.len() && nodes@[((#[trigger] stack@[k]).0) as int].parent
                        == Some(id) ==> stack@[k].1 == level_max(
                        access_type,
                        old(accesses)@[id as int].max_foreign_access,
                    )) && (forall|j: int|
                    0 <= j < nodes@[id as int].children@.len() ==> (queued_at(
                        stack@,
                        0,
                        #[trigger] nodes@[id as int].children@[j],
                        level_max(access_type, old(accesses)@[id as int].max_foreign_access),
                    ) || accesses@[nodes@[id as int].children@[j] as int].max_foreign_access
                        == level_max(
                        access_type,
                        old(accesses)@[id as int].max_foreign_access,
                    ))),
                (parent_with_sole_reader(nodes@, allowed@, old(accesses)@, id as int) && lvl(
                    spec_max_child_access(old(accesses)@[id as int], old_access_type),
                ) == 0 && lvl(spec_max_child_access(old(accesses)@[id as int], access_type))
                    == 1) ==> (nodes@[id as int].parent matches Some(p0) ==> (forall|k: int|
                    0 <= k < stack@.len() && nodes@[((#[trigger] stack@[k]).0) as int].parent
                        == Some(p0) && stack@[k].0 != id ==> stack@[k].1 == spec_max_child_access(
                        old(accesses)@[id as int],
                        access_type,
                    )) && (forall|j: int|
                    0 <= j < nodes@[p0 as int].children@.len() && (#[trigger] nodes@[
                        p0 as int
                    ].children@[j]) != id && lvl(
                        spec_max_child_access(
                            old(accesses)@[nodes@[p0 as int].children@[j] as int],
                            s_exposed_as(nodes@, allowed@, nodes@[p0 as int].children@[j] as int),
                        ),
                    ) >= 1 ==> (queued_at(
                        stack@,
                        0,
                        nodes@[p0 as int].children@[j],
                        spec_max_child_access(old(accesses)@[id as int], access_type),
                    ) || accesses@[nodes@[p0 as int].children@[j] as int].max_foreign_access
                        == spec_max_child_access(old(accesses)@[id as int], access_type)))),
            ensures
                (parent_with_sole_reader(nodes@, allowed@, old(accesses)@, id as int) && lvl(
                    spec_max_child_access(old(accesses)@[id as int], old_access_type),
                ) == 0 && lvl(spec_max_child_access(old(accesses)@[id as int], access_type))
                    == 1) ==> (nodes@[id as int].parent matches Some(p0) ==> forall|j: int|
                    0 <= j < nodes@[p0 as int].children@.len() && (#[trigger] nodes@[
                        p0 as int
                    ].children@[j]) != id && lvl(
                        spec_max_child_access(
                            old(accesses)@[nodes@[p0 as int].children@[j] as int],
                            s_exposed_as(nodes@, allowed@, nodes@[p0 as int].children@[j] as int),
                        ),
                    ) >= 1 ==> accesses@[
                        nodes@[p0 as int].children@[j] as int
                    ].max_foreign_access == spec_max_child_access(
                        old(accesses)@[id as int],
                        access_type,
                    )),
                (old(accesses)@[id as int].child_writes == 0 && old(accesses)@[
                    id as int
                ].child_reads == 0 && lvl(level_max(access_type, old_access_type)) >= lvl(
                    old(accesses)@[id as int].max_foreign_access,
                )) ==> forall|j: int|
                    0 <= j < nodes@[id as int].children@.len() ==> accesses@[
                        (#[trigger] nodes@[id as int].children@[j]) as int
                    ].max_foreign_access == level_max(
                        access_type,
                        old(accesses)@[id as int].max_foreign_access,
                    ),
                (parent_otherwise_silent(nodes@, allowed@, old(accesses)@, id as int)
                    && spec_max_child_access(old(accesses)@[id as int], old_access_type)
                    != spec_max_child_access(old(accesses)@[id as int], access_type)) ==> (nodes@[
                    id as int
                ].parent matches Some(p0) ==> forall|j: int|
                    0 <= j < nodes@[p0 as int].children@.len() && (#[trigger] nodes@[
                        p0 as int
                    ].children@[j]) != id ==> accesses@[
                        nodes@[p0 as int].children@[j] as int
                    ].max_foreign_access == spec_max_child_access(
                        old(accesses)@[id as int],
                        access_type,
                    )),
                accesses@.len() == n,
                accesses@[id as int] == old(accesses)@[id as int],
                forall|i: int|
                    0 <= i < n && !(in_ancestor_chain(nodes@, i, id as int) && i != id) ==> (
                    #[trigger] accesses@[i]).child_reads == old(accesses)@[i].child_reads
                        && accesses@[i].child_writes == old(accesses)@[i].child_writes,
                nodes@[id as int].parent matches Some(p0) ==> parent_record_updated(
                    old(accesses)@[p0 as int],
                    accesses@[p0 as int],
                    spec_max_child_access(old(accesses)@[id as int], old_access_type),
                    spec_max_child_access(old(accesses)@[id as int], access_type),
                ),
                counters_ok(nodes@, allowed@, accesses@),
            decreases stack_measure(stack@, n as int),
        {
            let ghost s_pre = stack@;
            let top = match stack.pop() {
                Some(t) => t,
                None => {
                    proof {
                        // An empty queue leaves nothing pending: every
                        // covered sibling already carries its value.
                        if parent_otherwise_silent(nodes@, allowed@, old(accesses)@, id as int)
                            && spec_max_child_access(old(accesses)@[id as int], old_access_type)
                            != spec_max_child_access(old(accesses)@[id as int], access_type) {
                            match nodes@[id as int].parent {
                                Some(p0u) => {
                                    let mn_s = spec_max_child_access(
                                        old(accesses)@[id as int],
                                        access_type,
                                    );
                                    let cs0 = nodes@[p0u as int].children@;
                                    assert forall|j: int|
                                        0 <= j < cs0.len() && (#[trigger] cs0[j])
                                            != id implies accesses@[cs0[j] as int].max_foreign_access
                                        == mn_s by {
                                        if queued_at(stack@, 0, cs0[j], mn_s) {
                                            let k0 = choose|k0: int|
                                                0 <= k0 < stack@.len() && stack@[k0] == (
                                                cs0[j],
                                                mn_s,
                                                );
                                            assert(stack@.len() == 0);
                                        }
                                    };
                                },
                                None => {},
                            }
                        }
                        if old(accesses)@[id as int].child_writes == 0 && old(accesses)@[
                            id as int
                        ].child_reads == 0 && lvl(level_max(access_type, old_access_type)) >= lvl(
                            old(accesses)@[id as int].max_foreign_access,
                        ) {
                            let la = level_max(
                                access_type,
                                old(accesses)@[id as int].max_foreign_access,
                            );
                            let csi = nodes@[id as int].children@;
                            assert forall|j: int|
                                0 <= j < csi.len() implies accesses@[(
                                #[trigger] csi[j]) as int].max_foreign_access == la by {
                                if queued_at(stack@, 0, csi[j], la) {
                                    let k0 = choose|k0: int|
                                        0 <= k0 < stack@.len() && stack@[k0] == (csi[j], la);
                                    assert(stack@.len() == 0);
                                }
                            };
                        }
                        if parent_with_sole_reader(nodes@, allowed@, old(accesses)@, id as int)
                            && lvl(
                            spec_max_child_access(old(accesses)@[id as int], old_access_type),
                        ) == 0 && lvl(
                            spec_max_child_access(old(accesses)@[id as int], access_type),
                        ) == 1 {
                            match nodes@[id as int].parent {
                                Some(p0u) => {
                                    let mn_s = spec_max_child_access(
                                        old(accesses)@[id as int],
                                        access_type,
                                    );
                                    let cs0 = nodes@[p0u as int].children@;
                                    assert forall|j: int|
                                        0 <= j < cs0.len() && (#[trigger] cs0[j]) != id && lvl(
                                            spec_max_child_access(
                                                old(accesses)@[cs0[j] as int],
                                                s_exposed_as(nodes@, allowed@, cs0[j] as int),
                                            ),
                                        ) >= 1 implies accesses@[
                                        cs0[j] as int
                                    ].max_foreign_access == mn_s by {
                                        if queued_at(stack@, 0, cs0[j], mn_s) {
                                            let k0 = choose|k0: int|
                                                0 <= k0 < stack@.len() && stack@[k0] == (
                                                cs0[j],
                                                mn_s,
                                                );
                                            assert(stack@.len() == 0);
                                        }
                                    };
                                },
                                None => {},
                            }
                        }
                    }
                    break ;
                },
            };
            let (cid, level_to_set) = top;
            proof {
                assert(wf_node(nodes@, cid as int));
                assert(stack@ =~= s_pre.drop_last());
                // The queue never holds the updated node or an ancestor of
                // it, so this write is off the ancestor chain.
                assert(top == s_pre[s_pre.len() - 1]);
                assert(!in_ancestor_chain(nodes@, cid as int, id as int));
                assert(in_ancestor_chain(nodes@, id as int, id as int));
                match nodes@[id as int].parent {
                    Some(p0u) => {
                        assert(wf_node(nodes@, id as int));
                        assert(in_ancestor_chain(nodes@, p0u as int, p0u as int));
                        assert(in_ancestor_chain(nodes@, p0u as int, id as int));
                        assert(cid != p0u);
                    },
                    None => {},
                }
            }
            let ghost s_after_pop = stack@;
            let ghost rs_pre = accesses@;
            let mut rec = accesses[cid];
            rec.max_foreign_access = level_to_set;
            accesses[cid] = rec;
            proof {
                // Setting a foreign level moves no max_child_access, so
                // every counter equation is untouched.
                assert forall|i: int| 0 <= i < n implies #[trigger] node_counters_ok(
                    nodes@,
                    allowed@,
                    accesses@,
                    i,
                ) by {
                    assert(node_counters_ok(nodes@, allowed@, rs_pre, i));
                    assert(wf_node(nodes@, i));
                    assert forall|j: int| 0 <= j < nodes@[i].children@.len() implies mca_at(
                        nodes@,
                        allowed@,
                        rs_pre,
                        (#[trigger] nodes@[i].children@[j]) as int,
                    ) == mca_at(nodes@, allowed@, accesses@, nodes@[i].children@[j] as int) by {};
                    lemma_count_congruent_members(
                        nodes@,
                        allowed@,
                        rs_pre,
                        nodes@,
                        allowed@,
                        accesses@,
                        nodes@[i].children@,
                        1,
                    );
                    lemma_count_congruent_members(
                        nodes@,
                        allowed@,
                        rs_pre,
                        nodes@,
                        allowed@,
                        accesses@,
                        nodes@[i].children@,
                        2,
                    );
                };
            }
            let exposed_as = exposed_as_of(nodes, allowed, cid);
            push_relevant_children(
                &mut stack,
                exposed_as,
                level_to_set,
                old_access_type,
                rec,
                &nodes[cid].children,
                None,
                nodes,
                allowed,
                accesses,
            );
            proof {
                let ni = n as int;
                let cs = nodes@[cid as int].children@;
                let tail = stack@.subrange(s_after_pop.len() as int, stack@.len() as int);
                assert(stack@ =~= s_after_pop + tail);
                // Children queued here hang below a node that is off the
                // ancestor chain, so they are off the chain as well.
                assert forall|k: int| 0 <= k < stack@.len() implies !in_ancestor_chain(
                    nodes@,
                    ((#[trigger] stack@[k]).0) as int,
                    id as int,
                ) by {
                    if k < s_after_pop.len() {
                        assert(stack@[k] == s_pre[k]);
                    } else {
                        let c = stack@[k].0;
                        assert(cs.contains(c));
                        let j = choose|j: int| 0 <= j < cs.len() && cs[j] == c;
                        assert(nodes@[c as int].parent == Some(cid));
                        assert((cid as int) < c as int);
                        if in_ancestor_chain(nodes@, c as int, id as int) {
                            if c as int == id as int {
                                assert(in_ancestor_chain(nodes@, cid as int, cid as int));
                                assert(in_ancestor_chain(nodes@, cid as int, id as int));
                            } else {
                                lemma_chain_parent(nodes@, c as int, cid, id as int);
                            }
                        }
                    }
                };
                assert forall|k: int| 0 <= k < tail.len() implies (cid as int) < (
                #[trigger] tail[k]).0 as int && (tail[k].0 as int) < ni by {
                    assert(tail[k] == stack@[s_after_pop.len() + k]);
                    assert(cs.contains(tail[k].0));
                    let j = choose|j: int| 0 <= j < cs.len() && cs[j] == tail[k].0;
                    assert((cid as int) < (cs[j] as int) && (cs[j] as int) < ni);
                };
                lemma_stack_measure_concat(s_after_pop, tail, ni);
                lemma_stack_measure_bound(tail, ni, cid as int);
                lemma_pow_positive(ni + 1, (ni - cid - 1) as nat);
                lemma_pow1(ni + 1);
                lemma_pow_adds(ni + 1, (ni - cid - 1) as nat, 1);
                lemma_mul_inequality(
                    tail.len() as int,
                    ni,
                    pow(ni + 1, (ni - cid - 1) as nat),
                );
                assert(stack_measure(s_pre, ni) == stack_measure(s_after_pop, ni) + pow(
                    ni + 1,
                    (ni - cid as int) as nat,
                ));
                assert((ni - cid - 1) + 1 == ni - cid as int);
                assert(pow(ni + 1, (ni - cid as int) as nat) == pow(ni + 1, (ni - cid - 1) as nat)
                    * (ni + 1)) by {
                    assert(pow(ni + 1, 1) == ni + 1);
                };
                assert(ni * pow(ni + 1, (ni - cid - 1) as nat) < (ni + 1) * pow(
                    ni + 1,
                    (ni - cid - 1) as nat,
                )) by (nonlinear_arith)
                    requires
                        pow(ni + 1, (ni - cid - 1) as nat) > 0,
                ;
                assert(stack_measure(stack@, ni) < stack_measure(s_pre, ni));
                lemma_stack_measure_nonneg(stack@, ni);
            }
            proof {
                // Under a silent parent, a popped sibling receives exactly
                // the branch's new contribution, and entries queued for
                // deeper nodes never name a sibling.
                if parent_otherwise_silent(nodes@, allowed@, old(accesses)@, id as int)
                    && spec_max_child_access(old(accesses)@[id as int], old_access_type)
                    != spec_max_child_access(old(accesses)@[id as int], access_type) {
                    match nodes@[id as int].parent {
                        Some(p0u) => {
                            let mn_s = spec_max_child_access(
                                old(accesses)@[id as int],
                                access_type,
                            );
                            let cs0 = nodes@[p0u as int].children@;
                            assert(cid != p0u);
                            assert(wf_node(nodes@, id as int));
                            assert(wf_node(nodes@, p0u as int));
                            assert forall|k: int|
                                0 <= k < stack@.len() && nodes@[((#[trigger] stack@[
                                    k
                                ]).0) as int].parent == Some(p0u) && stack@[k].0
                                    != id implies stack@[k].1 == mn_s by {
                                if k < s_after_pop.len() {
                                    assert(stack@[k] == s_pre[k]);
                                } else {
                                    let c = stack@[k].0;
                                    assert(nodes@[cid as int].children@.contains(c));
                                    let jj = choose|jj: int|
                                        0 <= jj < nodes@[cid as int].children@.len() && nodes@[
                                            cid as int
                                        ].children@[jj] == c;
                                    assert(nodes@[c as int].parent == Some(cid));
                                    assert(false);
                                }
                            };
                            assert forall|j: int|
                                0 <= j < cs0.len() && (#[trigger] cs0[j]) != id implies (queued_at(
                                stack@,
                                0,
                                cs0[j],
                                mn_s,
                            ) || accesses@[cs0[j] as int].max_foreign_access == mn_s) by {
                                let c = cs0[j];
                                if queued_at(s_pre, 0, c, mn_s) {
                                    let k0 = choose|k0: int|
                                        0 <= k0 < s_pre.len() && s_pre[k0] == (c, mn_s);
                                    if k0 < s_pre.len() - 1 {
                                        assert(s_after_pop[k0] == (c, mn_s));
                                        assert(stack@[k0] == (c, mn_s));
                                    } else {
                                        assert(top == (c, mn_s));
                                        assert(accesses@[c as int].max_foreign_access == mn_s);
                                    }
                                } else {
                                    assert(rs_pre[c as int].max_foreign_access == mn_s);
                                    assert(nodes@[c as int].parent == Some(p0u));
                                    assert((c as int) < n);
                                    if c == cid {
                                        assert(s_pre[s_pre.len() - 1] == top);
                                        assert(level_to_set == mn_s);
                                        assert(accesses@[c as int].max_foreign_access == mn_s);
                                    } else {
                                        assert(accesses@[c as int] == rs_pre[c as int]);
                                    }
                                }
                            };
                        },
                        None => {},
                    }
                }
            }
            proof {
                // The same bookkeeping for the sole dominant sibling.
                if parent_with_sole_reader(nodes@, allowed@, old(accesses)@, id as int) && lvl(
                    spec_max_child_access(old(accesses)@[id as int], old_access_type),
                ) == 0 && lvl(spec_max_child_access(old(accesses)@[id as int], access_type))
                    == 1 {
                    match nodes@[id as int].parent {
                        Some(p0u) => {
                            let mn_s = spec_max_child_access(
                                old(accesses)@[id as int],
                                access_type,
                            );
                            let cs0 = nodes@[p0u as int].children@;
                            assert(cid != p0u);
                            assert(wf_node(nodes@, id as int));
                            assert(wf_node(nodes@, p0u as int));
                            assert forall|k: int|
                                0 <= k < stack@.len() && nodes@[((#[trigger] stack@[
                                    k
                                ]).0) as int].parent == Some(p0u) && stack@[k].0
                                    != id implies stack@[k].1 == mn_s by {
                                if k < s_after_pop.len() {
                                    assert(stack@[k] == s_pre[k]);
                                } else {
                                    let c = stack@[k].0;
                                    assert(nodes@[cid as int].children@.contains(c));
                                    let jj = choose|jj: int|
                                        0 <= jj < nodes@[cid as int].children@.len() && nodes@[
                                            cid as int
                                        ].children@[jj] == c;
                                    assert(nodes@[c as int].parent == Some(cid));
                                    assert(false);
                                }
                            };
                            assert forall|j: int|
                                0 <= j < cs0.len() && (#[trigger] cs0[j]) != id && lvl(
                                    spec_max_child_access(
                                        old(accesses)@[cs0[j] as int],
                                        s_exposed_as(nodes@, allowed@, cs0[j] as int),
                                    ),
                                ) >= 1 implies (queued_at(stack@, 0, cs0[j], mn_s) || accesses@[
                                cs0[j] as int
                            ].max_foreign_access == mn_s) by {
                                let c = cs0[j];
                                assert(nodes@[c as int].parent == Some(p0u));
                                assert((c as int) < n);
                                if queued_at(s_pre, 0, c, mn_s) {
                                    let k0 = choose|k0: int|
                                        0 <= k0 < s_pre.len() && s_pre[k0] == (c, mn_s);
                                    if k0 < s_pre.len() - 1 {
                                        assert(s_after_pop[k0] == (c, mn_s));
                                        assert(stack@[k0] == (c, mn_s));
                                    } else {
                                        assert(top == (c, mn_s));
                                        assert(accesses@[c as int].max_foreign_access == mn_s);
                                    }
                                } else {
                                    assert(rs_pre[c as int].max_foreign_access == mn_s);
                                    if c == cid {
                                        assert(s_pre[s_pre.len() - 1] == top);
                                        assert(level_to_set == mn_s);
                                        assert(accesses@[c as int].max_foreign_access == mn_s);
                                    } else {
                                        assert(accesses@[c as int] == rs_pre[c as int]);
                                    }
                                }
                            };
                        },
                        None => {},
                    }
                }
            }
            proof {
                // The same bookkeeping for the updated node's own
                // children: entries queued deeper never name one of them.
                if old(accesses)@[id as int].child_writes == 0 && old(accesses)@[
                    id as int
                ].child_reads == 0 && lvl(level_max(access_type, old_access_type)) >= lvl(
                    old(accesses)@[id as int].max_foreign_access,
                ) {
                    let la = level_max(access_type, old(accesses)@[id as int].max_foreign_access);
                    let csi = nodes@[id as int].children@;
                    assert(wf_node(nodes@, id as int));
                    assert(cid != id);
                    assert forall|k: int|
                        0 <= k < stack@.len() && nodes@[((#[trigger] stack@[k]).0) as int].parent
                            == Some(id) implies stack@[k].1 == la by {
                        if k < s_after_pop.len() {
                            assert(stack@[k] == s_pre[k]);
                        } else {
                            let c = stack@[k].0;
                            assert(nodes@[cid as int].children@.contains(c));
                            let jj = choose|jj: int|
                                0 <= jj < nodes@[cid as int].children@.len() && nodes@[
                                    cid as int
                                ].children@[jj] == c;
                            assert(nodes@[c as int].parent == Some(cid));
                            assert(false);
                        }
                    };
                    assert forall|j: int| 0 <= j < csi.len() implies (queued_at(
                        stack@,
                        0,
                        #[trigger] csi[j],
                        la,
                    ) || accesses@[csi[j] as int].max_foreign_access == la) by {
                        let c = csi[j];
                        if queued_at(s_pre, 0, c, la) {
                            let k0 = choose|k0: int|
                                0 <= k0 < s_pre.len() && s_pre[k0] == (c, la);
                            if k0 < s_pre.len() - 1 {
                                assert(s_after_pop[k0] == (c, la));
                                assert(stack@[k0] == (c, la));
                            } else {
                                assert(top == (c, la));
                                assert(accesses@[c as int].max_foreign_access == la);
                            }
                        } else {
                            assert(rs_pre[c as int].max_foreign_access == la);
                            assert(nodes@[c as int].parent == Some(id));
                            assert((c as int) < n);
                            if c == cid {
                                assert(s_pre[s_pre.len() - 1] == top);
                                assert(level_to_set == la);
                                assert(accesses@[c as int].max_foreign_access == la);
                            } else {
                                assert(accesses@[c as int] == rs_pre[c as int]);
                            }
                        }
                    };
                }
            }
        }
    }

    /// The expensive checking mode: run [`Self::update_exposure`] and then
    /// hold the whole location against the invariant equations.  `true`
    /// means every record is exactly consistent after the update.
    pub fn update_exposure_checked(
        id: usize,
        old_access_type: WildcardAccessLevel,
        access_type: WildcardAccessLevel,
        nodes: &Vec<Node>,
        allowed: &Vec<WildcardAccessLevel>,
        accesses: &mut Vec<WildcardAccessTracking>,
    ) -> (r: bool)
        requires
            wf_nodes(nodes@),
            id < nodes@.len(),
            allowed@.len() == nodes@.len(),
            old(accesses)@.len() == nodes@.len(),
            forall|i: int|
                0 <= i < old(accesses)@.len() ==> (#[trigger] old(accesses)@[i]).child_reads
                    < u16::MAX && old(accesses)@[i].child_writes < u16::MAX,
            s_exposed_as(nodes@, allowed@, id as int) == access_type,
            counters_ok(
                nodes_with_exposed(nodes@, id as int),
                allowed@.update(id as int, old_access_type),
                old(accesses)@,
            ),
        ensures
            final(accesses)@.len() == old(accesses)@.len(),
            old_access_type == access_type ==> final(accesses)@ == old(accesses)@,
            final(accesses)@[id as int] == old(accesses)@[id as int],
            forall|i: int|
                0 <= i < nodes@.len() && !(in_ancestor_chain(nodes@, i, id as int) && i != id)
                    ==> (#[trigger] final(accesses)@[i]).child_reads == old(accesses)@[
                    i
                ].child_reads && final(accesses)@[i].child_writes == old(accesses)@[
                    i
                ].child_writes,
            counters_ok(nodes@, allowed@, final(accesses)@),
            (parent_otherwise_silent(nodes@, allowed@, old(accesses)@, id as int)
                && spec_max_child_access(old(accesses)@[id as int], old_access_type)
                != spec_max_child_access(old(accesses)@[id as int], access_type)) ==> (nodes@[
                id as int
            ].parent matches Some(p0) ==> forall|j: int|
                0 <= j < nodes@[p0 as int].children@.len() && (#[trigger] nodes@[
                    p0 as int
                ].children@[j]) != id ==> final(accesses)@[
                    nodes@[p0 as int].children@[j] as int
                ].max_foreign_access == spec_max_child_access(
                    old(accesses)@[id as int],
                    access_type,
                )),
            (parent_with_sole_reader(nodes@, allowed@, old(accesses)@, id as int) && lvl(
                spec_max_child_access(old(accesses)@[id as int], old_access_type),
            ) == 0 && lvl(spec_max_child_access(old(accesses)@[id as int], access_type)) == 1)
                ==> (nodes@[id as int].parent matches Some(p0) ==> forall|j: int|
                0 <= j < nodes@[p0 as int].children@.len() && (#[trigger] nodes@[
                    p0 as int
                ].children@[j]) != id && lvl(
                    spec_max_child_access(
                        old(accesses)@[nodes@[p0 as int].children@[j] as int],
                        s_exposed_as(nodes@, allowed@, nodes@[p0 as int].children@[j] as int),
                    ),
                ) >= 1 ==> final(accesses)@[
                    nodes@[p0 as int].children@[j] as int
                ].max_foreign_access == spec_max_child_access(
                    old(accesses)@[id as int],
                    access_type,
                )),
            r == consistent(nodes@, allowed@, final(accesses)@),
    {
        Self::update_exposure(id, old_access_type, access_type, nodes, allowed, accesses);
        Self::verify_consistency(nodes, allowed, accesses)
    }
}

} // verus!
