use vstd::prelude::*;

use crate::access::WildcardAccessLevel;
use crate::access::level_max;
use crate::access::lvl;
use crate::consistency::consistent;
use crate::consistency::counters_ok;
use crate::consistency::lemma_consistent_congruent;
use crate::consistency::lemma_counters_ok_congruent;
use crate::consistency::lemma_new_child_consistent;
use crate::consistency::lemma_new_child_counters_ok;
use crate::consistency::node_consistent;
use crate::consistency::nodes_with_exposed;
use crate::tracking::WildcardAccessTracking;
use crate::tracking::spec_max_child_access;
use crate::update::parent_otherwise_silent;
use crate::update::parent_record_updated;
use crate::update::parent_with_sole_reader;

verus! {

/// One node of the ownership tree, held in a flat arena and addressed by
/// index.  Parent links are non-owning back-references; children are listed
/// by index.  A node created later always has a larger index than its
/// parent, so the arena order is a topological order of the tree.
#[derive(Debug)]
pub struct Node {
    /// Index of the parent node; `None` for a root.
    pub parent: Option<usize>,
    /// Indices of the direct children, each larger than this node's index.
    pub children: Vec<usize>,
    /// Whether this node's address has been leaked to an untracked form.
    pub is_exposed: bool,
}

/// Well-formedness of one arena slot: the parent comes earlier in the
/// arena and lists `i` among its children, children come later, stay in
/// bounds, are listed once each, and point back to `i`.
pub open spec fn wf_node(ns: Seq<Node>, i: int) -> bool {
    &&& (ns[i].parent matches Some(p) ==> (p as int) < i && ns[p as int].children@.contains(
        i as usize,
    ))
    &&& ns[i].children@.len() <= ns.len()
    &&& ns[i].children@.no_duplicates()
    &&& (forall|j: int|
        0 <= j < ns[i].children@.len() ==> i < (#[trigger] ns[i].children@[j]) as int
            && (ns[i].children@[j] as int) < ns.len())
    &&& (forall|j: int|
        0 <= j < ns[i].children@.len() ==> ns[(#[trigger] ns[i].children@[j]) as int].parent
            == Some(i as usize))
}

/// Well-formedness of the whole arena.
pub open spec fn wf_nodes(ns: Seq<Node>) -> bool {
    forall|i: int| 0 <= i < ns.len() ==> #[trigger] wf_node(ns, i)
}

/// Whether `a` is node `i` itself or one of its ancestors, following the
/// parent back-references.  The walk only follows links that go strictly
/// down in arena order, as every well-formed arena's do.
pub open spec fn in_ancestor_chain(ns: Seq<Node>, a: int, i: int) -> bool
    decreases i,
{
    if i < 0 {
        false
    } else if a == i {
        true
    } else {
        match ns[i].parent {
            Some(p) => (p as int) < i && in_ancestor_chain(ns, a, p as int),
            None => false,
        }
    }
}

/// Every member of a node's ancestor chain has an index no larger than
/// the node's own.
pub proof fn lemma_chain_le(ns: Seq<Node>, a: int, i: int)
    requires
        in_ancestor_chain(ns, a, i),
    ensures
        0 <= a <= i,
    decreases i,
{
    if a != i {
        match ns[i].parent {
            Some(p) => {
                lemma_chain_le(ns, a, p as int);
            },
            None => {},
        }
    }
}

/// The parent of a chain member is a chain member.
pub proof fn lemma_chain_parent(ns: Seq<Node>, c: int, cp: usize, i: int)
    requires
        wf_nodes(ns),
        0 <= i < ns.len(),
        in_ancestor_chain(ns, c, i),
        ns[c].parent == Some(cp),
    ensures
        in_ancestor_chain(ns, cp as int, i),
    decreases i,
{
    lemma_chain_le(ns, c, i);
    assert(wf_node(ns, i));
    if c == i {
        assert(wf_node(ns, c));
        assert((cp as int) < i);
        assert(in_ancestor_chain(ns, cp as int, cp as int));
    } else {
        match ns[i].parent {
            Some(q) => {
                lemma_chain_parent(ns, c, cp, q as int);
            },
            None => {},
        }
    }
}

/// The ancestor chain is a single path: two of its members that share a
/// parent are one and the same node.
pub proof fn lemma_chain_unique_child(ns: Seq<Node>, a: int, b: int, i: int)
    requires
        wf_nodes(ns),
        0 <= i < ns.len(),
        in_ancestor_chain(ns, a, i),
        in_ancestor_chain(ns, b, i),
        ns[a].parent is Some,
        ns[a].parent == ns[b].parent,
    ensures
        a == b,
    decreases i,
{
    lemma_chain_le(ns, a, i);
    lemma_chain_le(ns, b, i);
    assert(wf_node(ns, i));
    if a == i {
        if b != i {
            match ns[i].parent {
                Some(q) => {
                    // b would lie on the chain of q and also have q as its
                    // parent, putting it both above and below q in arena
                    // order.
                    lemma_chain_le(ns, b, q as int);
                    assert(wf_node(ns, b));
                },
                None => {},
            }
        }
    } else if b == i {
        match ns[i].parent {
            Some(q) => {
                lemma_chain_le(ns, a, q as int);
                assert(wf_node(ns, a));
            },
            None => {},
        }
    } else {
        match ns[i].parent {
            Some(q) => {
                lemma_chain_unique_child(ns, a, b, q as int);
            },
            None => {},
        }
    }
}

/// The access level this node's exposure currently grants, for the
/// location whose per-node allowance is `allowed`: the strongest access
/// the node's own permission would let a descendant perform, if the node
/// is exposed at all, and `NoAccess` otherwise.
pub open spec fn s_exposed_as(
    ns: Seq<Node>,
    allowed: Seq<WildcardAccessLevel>,
    i: int,
) -> WildcardAccessLevel {
    if ns[i].is_exposed {
        allowed[i]
    } else {
        WildcardAccessLevel::NoAccess
    }
}

/// Per-location state: for every node, the strongest access its current
/// permission would allow a descendant to perform, and the cached
/// aggregate record.
#[derive(Debug)]
pub struct LocationData {
    /// `allowed[i]`: the strongest access node `i`'s own permission would
    /// let a descendant perform at this location.
    pub allowed: Vec<WildcardAccessLevel>,
    /// `accesses[i]`: the cached exposure aggregate of node `i`.
    pub accesses: Vec<WildcardAccessTracking>,
}

/// The ownership tree together with the per-location exposure state it
/// owns for one analysis session.
#[derive(Debug)]
pub struct Tree {
    pub nodes: Vec<Node>,
    pub locations: Vec<LocationData>,
}

impl Tree {
    /// Arena well-formedness plus one allowance and one record per node
    /// at every location.
    pub open spec fn wf(self) -> bool {
        &&& wf_nodes(self.nodes@)
        &&& forall|l: int|
            0 <= l < self.locations@.len() ==> (#[trigger] self.locations@[l]).allowed@.len()
                == self.nodes@.len() && self.locations@[l].accesses@.len() == self.nodes@.len()
    }

    /// No child counter is saturated, so one more threshold crossing can
    /// still be recorded.
    pub open spec fn counters_have_room(self) -> bool {
        forall|l: int, i: int|
            0 <= l < self.locations@.len() && 0 <= i < self.nodes@.len() ==> (
            #[trigger] self.locations@[l].accesses@[i]).child_reads < u16::MAX
                && self.locations@[l].accesses@[i].child_writes < u16::MAX
    }

    /// A fresh tree: one unexposed root with all-zero state at each of
    /// `num_locations` locations.
    pub fn new(num_locations: usize) -> (t: Tree)
        ensures
            t.wf(),
            t.counters_have_room(),
            t.nodes@.len() == 1,
            t.nodes@[0].parent == None::<usize>,
            t.nodes@[0].children@ == Seq::<usize>::empty(),
            !t.nodes@[0].is_exposed,
            t.locations@.len() == num_locations,
            forall|l: int|
                0 <= l < num_locations ==> (#[trigger] t.locations@[l]).allowed@ == seq![
                    WildcardAccessLevel::NoAccess,
                ] && t.locations@[l].accesses@ == seq![WildcardAccessTracking::empty()],
            forall|l: int|
                0 <= l < num_locations ==> consistent(
                    t.nodes@,
                    (#[trigger] t.locations@[l]).allowed@,
                    t.locations@[l].accesses@,
                ),
    {
        let mut nodes: Vec<Node> = Vec::new();
        nodes.push(Node { parent: None, children: Vec::new(), is_exposed: false });
        let mut locations: Vec<LocationData> = Vec::new();
        let mut l: usize = 0;
        while l < num_locations
            invariant
                l <= num_locations,
                locations@.len() == l,
                forall|l2: int|
                    0 <= l2 < l ==> (#[trigger] locations@[l2]).allowed@ == seq![
                        WildcardAccessLevel::NoAccess,
                    ] && locations@[l2].accesses@ == seq![WildcardAccessTracking::empty()],
            decreases num_locations - l,
        {
            let mut allowed: Vec<WildcardAccessLevel> = Vec::new();
            allowed.push(WildcardAccessLevel::NoAccess);
            let mut accesses: Vec<WildcardAccessTracking> = Vec::new();
            accesses.push(WildcardAccessTracking::default());
            proof {
                assert(allowed@ =~= seq![WildcardAccessLevel::NoAccess]);
                assert(accesses@ =~= seq![WildcardAccessTracking::empty()]);
            }
            locations.push(LocationData { allowed, accesses });
            l += 1;
        }
        let t = Tree { nodes, locations };
        proof {
            // A lone unexposed root with the all-zero record satisfies the
            // equations outright.
            assert forall|li: int| 0 <= li < num_locations implies consistent(
                t.nodes@,
                (#[trigger] t.locations@[li]).allowed@,
                t.locations@[li].accesses@,
            ) by {
                assert(node_consistent(t.nodes@, t.locations@[li].allowed@, t.locations@[
                    li
                ].accesses@, 0));
            };
        }
        t
    }

    /// Create a brand-new child of `parent`: unexposed, without children,
    /// and at every location with the aggregate record its parent's
    /// current record derives.  A location that satisfied the invariant
    /// before still satisfies it, with no propagation pass — the new
    /// record is born consistent.
    #[verifier::loop_isolation(false)]
    pub fn add_child(&mut self, parent: usize) -> (c: usize)
        requires
            old(self).wf(),
            parent < old(self).nodes@.len(),
            old(self).nodes@.len() < usize::MAX,
        ensures
            final(self).wf(),
            old(self).counters_have_room() ==> final(self).counters_have_room(),
            c == old(self).nodes@.len(),
            final(self).nodes@.len() == old(self).nodes@.len() + 1,
            final(self).nodes@[c as int].parent == Some(parent),
            final(self).nodes@[c as int].children@ == Seq::<usize>::empty(),
            !final(self).nodes@[c as int].is_exposed,
            final(self).nodes@[parent as int].parent == old(self).nodes@[parent as int].parent,
            final(self).nodes@[parent as int].is_exposed == old(self).nodes@[
                parent as int
            ].is_exposed,
            final(self).nodes@[parent as int].children@ == old(self).nodes@[
                parent as int
            ].children@.push(c),
            forall|i: int|
                0 <= i < old(self).nodes@.len() && i != parent ==> final(self).nodes@[i] == old(
                    self,
                ).nodes@[i],
            final(self).locations@.len() == old(self).locations@.len(),
            forall|l: int|
                0 <= l < old(self).locations@.len() ==> (#[trigger] final(self).locations@[
                    l
                ]).allowed@ == old(self).locations@[l].allowed@.push(
                    WildcardAccessLevel::NoAccess,
                ) && final(self).locations@[l].accesses@ == old(self).locations@[
                    l
                ].accesses@.push(
                    (WildcardAccessTracking {
                        child_reads: 0,
                        child_writes: 0,
                        max_foreign_access: level_max(
                            old(self).locations@[l].accesses@[parent as int].max_foreign_access,
                            spec_max_child_access(
                                old(self).locations@[l].accesses@[parent as int],
                                s_exposed_as(
                                    old(self).nodes@,
                                    old(self).locations@[l].allowed@,
                                    parent as int,
                                ),
                            ),
                        ),
                    }),
                ),
            forall|l: int|
                0 <= l < old(self).locations@.len() && consistent(
                    old(self).nodes@,
                    old(self).locations@[l].allowed@,
                    old(self).locations@[l].accesses@,
                ) ==> consistent(
                    final(self).nodes@,
                    (#[trigger] final(self).locations@[l]).allowed@,
                    final(self).locations@[l].accesses@,
                ),
            forall|l: int|
                0 <= l < old(self).locations@.len() && counters_ok(
                    old(self).nodes@,
                    old(self).locations@[l].allowed@,
                    old(self).locations@[l].accesses@,
                ) ==> counters_ok(
                    final(self).nodes@,
                    (#[trigger] final(self).locations@[l]).allowed@,
                    final(self).locations@[l].accesses@,
                ),
    {
        let ghost ns0 = self.nodes@;
        let c = self.nodes.len();
        let exp = self.nodes[parent].is_exposed;
        self.nodes[parent].children.push(c);
        self.nodes.push(Node { parent: Some(parent), children: Vec::new(), is_exposed: false });
        let ghost ns2 = self.nodes@;
        let ghost p2 = ns2[parent as int];
        let ghost child = ns2[c as int];
        proof {
            let n = ns0.len() as int;
            assert forall|k: int| 0 <= k < n implies ns2[k].parent == ns0[k].parent && ns2[
                k
            ].is_exposed == ns0[k].is_exposed by {};
            // Membership in a child list survives the append.
            assert forall|y: usize| ns0[parent as int].children@.contains(
                y,
            ) implies #[trigger] ns2[parent as int].children@.contains(y) by {
                let j = choose|j: int|
                    0 <= j < ns0[parent as int].children@.len() && ns0[parent as int].children@[j]
                        == y;
                assert(ns2[parent as int].children@[j] == y);
            };
            assert(ns2[parent as int].children@[ns0[parent as int].children@.len() as int] == c);
            assert(ns2[parent as int].children@.contains(c));
            assert forall|i: int| 0 <= i < ns2.len() implies wf_node(ns2, i) by {
                if i < n {
                    assert(wf_node(ns0, i));
                    if i == parent as int {
                        assert(ns2[i].children@ == ns0[i].children@.push(c));
                        assert forall|j: int| 0 <= j < ns2[i].children@.len() implies i < (
                        #[trigger] ns2[i].children@[j]) as int && (ns2[i].children@[j] as int)
                            < ns2.len() && ns2[(ns2[i].children@[j]) as int].parent == Some(
                            i as usize,
                        ) by {
                            if j < ns0[i].children@.len() {
                                assert(ns2[i].children@[j] == ns0[i].children@[j]);
                            } else {
                                assert(ns2[i].children@[j] == c);
                            }
                        };
                        // The fresh index is larger than every earlier
                        // entry, so the list stays duplicate-free.
                        let cs2 = ns2[i].children@;
                        assert forall|a: int, b: int|
                            0 <= a < cs2.len() && 0 <= b < cs2.len() && a != b implies cs2[a]
                            != cs2[b] by {
                            if a < cs2.len() - 1 && b < cs2.len() - 1 {
                                assert(cs2[a] == ns0[i].children@[a]);
                                assert(cs2[b] == ns0[i].children@[b]);
                            } else if a == cs2.len() - 1 {
                                assert(cs2[a] == c);
                                assert((ns0[i].children@[b] as int) < n);
                            } else {
                                assert(cs2[b] == c);
                                assert((ns0[i].children@[a] as int) < n);
                            }
                        };
                        assert(cs2.no_duplicates());
                    } else {
                        assert(ns2[i].children@ == ns0[i].children@);
                        assert forall|j: int| 0 <= j < ns2[i].children@.len() implies i < (
                        #[trigger] ns2[i].children@[j]) as int && (ns2[i].children@[j] as int)
                            < ns2.len() && ns2[(ns2[i].children@[j]) as int].parent == Some(
                            i as usize,
                        ) by {
                            assert(ns0[(ns0[i].children@[j]) as int].parent == Some(i as usize));
                        };
                    }
                    // The parent back-reference still lands in the (same
                    // or extended) child list.
                    match ns0[i].parent {
                        Some(q) => {
                            assert(ns0[q as int].children@.contains(i as usize));
                            if q as int != parent as int {
                                assert(ns2[q as int].children@ == ns0[q as int].children@);
                            }
                        },
                        None => {},
                    }
                } else {
                    assert(ns2[i] == child);
                }
            };
        }
        let num_locations = self.locations.len();
        let mut l: usize = 0;
        while l < num_locations
            invariant
                l <= num_locations,
                self.nodes@ == ns2,
                self.locations@.len() == num_locations,
                forall|l2: int|
                    l <= l2 < num_locations ==> (#[trigger] self.locations@[l2]) == old(
                        self,
                    ).locations@[l2],
                forall|l2: int|
                    0 <= l2 < l ==> (#[trigger] self.locations@[l2]).allowed@ == old(
                        self,
                    ).locations@[l2].allowed@.push(WildcardAccessLevel::NoAccess) && self.locations@[
                        l2
                    ].accesses@ == old(self).locations@[l2].accesses@.push(
                        (WildcardAccessTracking {
                            child_reads: 0,
                            child_writes: 0,
                            max_foreign_access: level_max(
                                old(self).locations@[l2].accesses@[
                                    parent as int
                                ].max_foreign_access,
                                spec_max_child_access(
                                    old(self).locations@[l2].accesses@[parent as int],
                                    s_exposed_as(
                                        ns0,
                                        old(self).locations@[l2].allowed@,
                                        parent as int,
                                    ),
                                ),
                            ),
                        }),
                    ),
                forall|l2: int|
                    0 <= l2 < l && consistent(
                        ns0,
                        old(self).locations@[l2].allowed@,
                        old(self).locations@[l2].accesses@,
                    ) ==> consistent(
                        ns2,
                        (#[trigger] self.locations@[l2]).allowed@,
                        self.locations@[l2].accesses@,
                    ),
                forall|l2: int|
                    0 <= l2 < l && counters_ok(
                        ns0,
                        old(self).locations@[l2].allowed@,
                        old(self).locations@[l2].accesses@,
                    ) ==> counters_ok(
                        ns2,
                        (#[trigger] self.locations@[l2]).allowed@,
                        self.locations@[l2].accesses@,
                    ),
            decreases num_locations - l,
        {
            let ghost locs0 = self.locations@;
            let mut loc = self.locations.remove(l);
            let ghost al0 = loc.allowed@;
            let ghost rs0 = loc.accesses@;
            let e_p = if exp {
                loc.allowed[parent]
            } else {
                WildcardAccessLevel::NoAccess
            };
            let newrec = loc.accesses[parent].get_new_child(e_p);
            loc.allowed.push(WildcardAccessLevel::NoAccess);
            loc.accesses.push(newrec);
            self.locations.insert(l, loc);
            proof {
                assert(self.locations@ =~= locs0.update(l as int, self.locations@[l as int]));
                assert(e_p == s_exposed_as(ns0, al0, parent as int));
                if consistent(ns0, al0, rs0) {
                    lemma_new_child_consistent(
                        ns0,
                        al0,
                        rs0,
                        parent as int,
                        p2,
                        child,
                        newrec,
                        WildcardAccessLevel::NoAccess,
                    );
                    assert(ns2 =~= ns0.update(parent as int, p2).push(child));
                }
                if counters_ok(ns0, al0, rs0) {
                    lemma_new_child_counters_ok(
                        ns0,
                        al0,
                        rs0,
                        parent as int,
                        p2,
                        child,
                        newrec,
                        WildcardAccessLevel::NoAccess,
                    );
                    assert(ns2 =~= ns0.update(parent as int, p2).push(child));
                }
            }
            l += 1;
        }
        c
    }

    /// Record, for one location, the strongest access node `node`'s
    /// permission now allows a descendant.  This only stores the level;
    /// when the change alters what an exposure could grant — that is,
    /// when the node is exposed — the caller must drive
    /// [`WildcardAccessTracking::update_exposure`] as well.  On an
    /// unexposed node the change is invisible to the aggregates and the
    /// invariant survives outright.
    pub fn set_allowed(&mut self, loc: usize, node: usize, level: WildcardAccessLevel)
        requires
            old(self).wf(),
            loc < old(self).locations@.len(),
            node < old(self).nodes@.len(),
        ensures
            final(self).wf(),
            final(self).nodes@ == old(self).nodes@,
            final(self).locations@.len() == old(self).locations@.len(),
            forall|l: int|
                0 <= l < old(self).locations@.len() && l != loc ==> final(self).locations@[l]
                    == old(self).locations@[l],
            final(self).locations@[loc as int].allowed@ == old(self).locations@[
                loc as int
            ].allowed@.update(node as int, level),
            final(self).locations@[loc as int].accesses@ == old(self).locations@[
                loc as int
            ].accesses@,
            forall|l: int|
                0 <= l < old(self).locations@.len() && !old(self).nodes@[node as int].is_exposed
                    && consistent(
                    old(self).nodes@,
                    old(self).locations@[l].allowed@,
                    old(self).locations@[l].accesses@,
                ) ==> consistent(
                    final(self).nodes@,
                    (#[trigger] final(self).locations@[l]).allowed@,
                    final(self).locations@[l].accesses@,
                ),
            forall|l: int|
                0 <= l < old(self).locations@.len() && !old(self).nodes@[node as int].is_exposed
                    && counters_ok(
                    old(self).nodes@,
                    old(self).locations@[l].allowed@,
                    old(self).locations@[l].accesses@,
                ) ==> counters_ok(
                    final(self).nodes@,
                    (#[trigger] final(self).locations@[l]).allowed@,
                    final(self).locations@[l].accesses@,
                ),
    {
        let ghost locs0 = self.locations@;
        let mut ld = self.locations.remove(loc);
        ld.allowed[node] = level;
        self.locations.insert(loc, ld);
        proof {
            assert(self.locations@ =~= locs0.update(
                loc as int,
                self.locations@[loc as int],
            ));
            let ns = old(self).nodes@;
            if !ns[node as int].is_exposed {
                let al_old = locs0[loc as int].allowed@;
                let al_new = al_old.update(node as int, level);
                assert forall|i: int| 0 <= i < ns.len() implies #[trigger] s_exposed_as(
                    ns,
                    al_new,
                    i,
                ) == s_exposed_as(ns, al_old, i) by {};
                assert forall|l: int|
                    0 <= l < locs0.len() && consistent(
                        ns,
                        locs0[l].allowed@,
                        locs0[l].accesses@,
                    ) implies consistent(
                    ns,
                    (#[trigger] self.locations@[l]).allowed@,
                    self.locations@[l].accesses@,
                ) by {
                    if l == loc as int {
                        lemma_consistent_congruent(
                            ns,
                            al_old,
                            ns,
                            al_new,
                            locs0[loc as int].accesses@,
                        );
                    }
                };
                assert forall|l: int|
                    0 <= l < locs0.len() && counters_ok(
                        ns,
                        locs0[l].allowed@,
                        locs0[l].accesses@,
                    ) implies counters_ok(
                    ns,
                    (#[trigger] self.locations@[l]).allowed@,
                    self.locations@[l].accesses@,
                ) by {
                    if l == loc as int {
                        assert forall|i: int|
                            0 <= i < ns.len() implies (#[trigger] ns[i]).children@ == ns[
                            i
                        ].children@ by {};
                        lemma_counters_ok_congruent(
                            ns,
                            al_old,
                            ns,
                            al_new,
                            locs0[loc as int].accesses@,
                        );
                    }
                };
            }
        }
    }

    /// Mark a node's address as leaked.  For every location, the strongest
    /// access the node's current permission allows a descendant becomes
    /// visible through the exposure, and the aggregate records are brought
    /// up to date by one incremental update per location, driven from the
    /// level the node's exposure granted there until now: `NoAccess` for a
    /// node exposed for the first time, and the unchanged current level
    /// for a node already exposed — for which the call is then a verified
    /// no-op on the records, as a repeated exposure at an unchanged level
    /// must be.
    #[verifier::loop_isolation(false)]
    pub fn expose_tag(&mut self, tag: usize)
        requires
            old(self).wf(),
            old(self).counters_have_room(),
            tag < old(self).nodes@.len(),
            forall|l: int|
                0 <= l < old(self).locations@.len() ==> counters_ok(
                    old(self).nodes@,
                    (#[trigger] old(self).locations@[l]).allowed@,
                    old(self).locations@[l].accesses@,
                ),
        ensures
            old(self).nodes@[tag as int].is_exposed ==> forall|l: int|
                0 <= l < old(self).locations@.len() ==> (#[trigger] final(self).locations@[
                    l
                ]).accesses@ == old(self).locations@[l].accesses@,
            final(self).wf(),
            final(self).nodes@.len() == old(self).nodes@.len(),
            final(self).locations@.len() == old(self).locations@.len(),
            final(self).nodes@[tag as int].is_exposed,
            final(self).nodes@[tag as int].parent == old(self).nodes@[tag as int].parent,
            final(self).nodes@[tag as int].children@ == old(self).nodes@[tag as int].children@,
            forall|i: int|
                0 <= i < old(self).nodes@.len() && i != tag ==> final(self).nodes@[i] == old(
                    self,
                ).nodes@[i],
            forall|l: int|
                0 <= l < old(self).locations@.len() ==> (#[trigger] final(self).locations@[
                    l
                ]).allowed@ == old(self).locations@[l].allowed@ && final(self).locations@[
                    l
                ].accesses@.len() == old(self).locations@[l].accesses@.len(),
            forall|l: int|
                0 <= l < old(self).locations@.len() ==> counters_ok(
                    final(self).nodes@,
                    (#[trigger] final(self).locations@[l]).allowed@,
                    final(self).locations@[l].accesses@,
                ),
            forall|l: int|
                0 <= l < old(self).locations@.len() ==> (#[trigger] final(self).locations@[
                    l
                ]).accesses@[tag as int] == old(self).locations@[l].accesses@[tag as int],
            forall|l: int|
                #![trigger final(self).locations@[l]]
                0 <= l < old(self).locations@.len() ==> (final(self).nodes@[
                    tag as int
                ].parent matches Some(p0) ==> parent_record_updated(
                    old(self).locations@[l].accesses@[p0 as int],
                    final(self).locations@[l].accesses@[p0 as int],
                    spec_max_child_access(
                        old(self).locations@[l].accesses@[tag as int],
                        s_exposed_as(
                            old(self).nodes@,
                            old(self).locations@[l].allowed@,
                            tag as int,
                        ),
                    ),
                    spec_max_child_access(
                        old(self).locations@[l].accesses@[tag as int],
                        old(self).locations@[l].allowed@[tag as int],
                    ),
                )),
            forall|l: int|
                #![trigger final(self).locations@[l]]
                0 <= l < old(self).locations@.len() ==> ((parent_otherwise_silent(
                    final(self).nodes@,
                    old(self).locations@[l].allowed@,
                    old(self).locations@[l].accesses@,
                    tag as int,
                ) && spec_max_child_access(
                    old(self).locations@[l].accesses@[tag as int],
                    s_exposed_as(old(self).nodes@, old(self).locations@[l].allowed@, tag as int),
                ) != spec_max_child_access(
                    old(self).locations@[l].accesses@[tag as int],
                    old(self).locations@[l].allowed@[tag as int],
                )) ==> (final(self).nodes@[tag as int].parent matches Some(p0) ==> forall|j: int|
                    0 <= j < final(self).nodes@[p0 as int].children@.len() && (
                    #[trigger] final(self).nodes@[p0 as int].children@[j]) != tag
                        ==> final(self).locations@[l].accesses@[
                        final(self).nodes@[p0 as int].children@[j] as int
                    ].max_foreign_access == spec_max_child_access(
                        old(self).locations@[l].accesses@[tag as int],
                        old(self).locations@[l].allowed@[tag as int],
                    ))),
            forall|l: int|
                #![trigger final(self).locations@[l]]
                0 <= l < old(self).locations@.len() ==> ((old(self).locations@[l].accesses@[
                    tag as int
                ].child_writes == 0 && old(self).locations@[l].accesses@[
                    tag as int
                ].child_reads == 0 && lvl(
                    level_max(
                        old(self).locations@[l].allowed@[tag as int],
                        s_exposed_as(
                            old(self).nodes@,
                            old(self).locations@[l].allowed@,
                            tag as int,
                        ),
                    ),
                ) >= lvl(old(self).locations@[l].accesses@[tag as int].max_foreign_access)
                    && s_exposed_as(
                    old(self).nodes@,
                    old(self).locations@[l].allowed@,
                    tag as int,
                ) != old(self).locations@[l].allowed@[tag as int]) ==> forall|j: int|
                    0 <= j < final(self).nodes@[tag as int].children@.len()
                        ==> final(self).locations@[l].accesses@[
                        (#[trigger] final(self).nodes@[tag as int].children@[j]) as int
                    ].max_foreign_access == level_max(
                        old(self).locations@[l].allowed@[tag as int],
                        old(self).locations@[l].accesses@[tag as int].max_foreign_access,
                    )),
            forall|l: int|
                #![trigger final(self).locations@[l]]
                0 <= l < old(self).locations@.len() ==> ((parent_with_sole_reader(
                    final(self).nodes@,
                    old(self).locations@[l].allowed@,
                    old(self).locations@[l].accesses@,
                    tag as int,
                ) && lvl(
                    spec_max_child_access(
                        old(self).locations@[l].accesses@[tag as int],
                        s_exposed_as(
                            old(self).nodes@,
                            old(self).locations@[l].allowed@,
                            tag as int,
                        ),
                    ),
                ) == 0 && lvl(
                    spec_max_child_access(
                        old(self).locations@[l].accesses@[tag as int],
                        old(self).locations@[l].allowed@[tag as int],
                    ),
                ) == 1) ==> (final(self).nodes@[tag as int].parent matches Some(p0)
                    ==> forall|j: int|
                    0 <= j < final(self).nodes@[p0 as int].children@.len() && (
                    #[trigger] final(self).nodes@[p0 as int].children@[j]) != tag && lvl(
                        spec_max_child_access(
                            old(self).locations@[l].accesses@[
                                final(self).nodes@[p0 as int].children@[j] as int
                            ],
                            s_exposed_as(
                                final(self).nodes@,
                                old(self).locations@[l].allowed@,
                                final(self).nodes@[p0 as int].children@[j] as int,
                            ),
                        ),
                    ) >= 1 ==> final(self).locations@[l].accesses@[
                        final(self).nodes@[p0 as int].children@[j] as int
                    ].max_foreign_access == spec_max_child_access(
                        old(self).locations@[l].accesses@[tag as int],
                        old(self).locations@[l].allowed@[tag as int],
                    ))),
    {
        let ghost ns0 = self.nodes@;
        let was_exposed = self.nodes[tag].is_exposed;
        self.nodes[tag].is_exposed = true;
        let ghost ns1 = self.nodes@;
        proof {
            assert forall|i: int| 0 <= i < ns1.len() implies wf_node(ns1, i) by {
                assert(wf_node(ns0, i));
                assert(ns1[i].children@ == ns0[i].children@);
                assert forall|j: int| 0 <= j < ns1[i].children@.len() implies ns1[(ns1[
                    i
                ].children@[j]) as int].parent == Some(i as usize) by {
                    assert(ns0[(ns0[i].children@[j]) as int].parent == Some(i as usize));
                };
            };
            if was_exposed {
                assert(ns1 =~= ns0);
            }
        }
        let num_locations = self.locations.len();
        let mut l: usize = 0;
        while l < num_locations
            invariant
                self.nodes@ == ns1,
                ns1.len() == old(self).nodes@.len(),
                wf_nodes(ns1),
                tag < ns1.len(),
                was_exposed == old(self).nodes@[tag as int].is_exposed,
                num_locations == self.locations@.len(),
                self.locations@.len() == old(self).locations@.len(),
                l <= num_locations,
                forall|l2: int|
                    0 <= l2 < num_locations ==> (#[trigger] self.locations@[l2]).allowed@ == old(
                        self,
                    ).locations@[l2].allowed@ && self.locations@[l2].accesses@.len() == old(
                        self,
                    ).locations@[l2].accesses@.len(),
                forall|l2: int|
                    l <= l2 < num_locations ==> (#[trigger] self.locations@[l2]).accesses@ == old(
                        self,
                    ).locations@[l2].accesses@,
                old(self).wf(),
                old(self).counters_have_room(),
                forall|l2: int|
                    0 <= l2 < l ==> counters_ok(
                        ns1,
                        (#[trigger] self.locations@[l2]).allowed@,
                        self.locations@[l2].accesses@,
                    ),
                was_exposed ==> forall|l2: int|
                    0 <= l2 < l ==> (#[trigger] self.locations@[l2]).accesses@ == old(
                        self,
                    ).locations@[l2].accesses@,
                forall|l2: int|
                    0 <= l2 < l ==> (#[trigger] self.locations@[l2]).accesses@[tag as int] == old(
                        self,
                    ).locations@[l2].accesses@[tag as int],
                forall|l2: int|
                    #![trigger self.locations@[l2]]
                    0 <= l2 < l ==> (ns1[tag as int].parent matches Some(p0)
                        ==> parent_record_updated(
                        old(self).locations@[l2].accesses@[p0 as int],
                        self.locations@[l2].accesses@[p0 as int],
                        spec_max_child_access(
                            old(self).locations@[l2].accesses@[tag as int],
                            s_exposed_as(
                                old(self).nodes@,
                                old(self).locations@[l2].allowed@,
                                tag as int,
                            ),
                        ),
                        spec_max_child_access(
                            old(self).locations@[l2].accesses@[tag as int],
                            old(self).locations@[l2].allowed@[tag as int],
                        ),
                    )),
                forall|l2: int|
                    #![trigger self.locations@[l2]]
                    0 <= l2 < l ==> ((parent_otherwise_silent(
                        ns1,
                        old(self).locations@[l2].allowed@,
                        old(self).locations@[l2].accesses@,
                        tag as int,
                    ) && spec_max_child_access(
                        old(self).locations@[l2].accesses@[tag as int],
                        s_exposed_as(
                            old(self).nodes@,
                            old(self).locations@[l2].allowed@,
                            tag as int,
                        ),
                    ) != spec_max_child_access(
                        old(self).locations@[l2].accesses@[tag as int],
                        old(self).locations@[l2].allowed@[tag as int],
                    )) ==> (ns1[tag as int].parent matches Some(p0) ==> forall|j: int|
                        0 <= j < ns1[p0 as int].children@.len() && (#[trigger] ns1[
                            p0 as int
                        ].children@[j]) != tag ==> self.locations@[l2].accesses@[
                            ns1[p0 as int].children@[j] as int
                        ].max_foreign_access == spec_max_child_access(
                            old(self).locations@[l2].accesses@[tag as int],
                            old(self).locations@[l2].allowed@[tag as int],
                        ))),
                forall|l2: int|
                    #![trigger self.locations@[l2]]
                    0 <= l2 < l ==> ((old(self).locations@[l2].accesses@[
                        tag as int
                    ].child_writes == 0 && old(self).locations@[l2].accesses@[
                        tag as int
                    ].child_reads == 0 && lvl(
                        level_max(
                            old(self).locations@[l2].allowed@[tag as int],
                            s_exposed_as(
                                old(self).nodes@,
                                old(self).locations@[l2].allowed@,
                                tag as int,
                            ),
                        ),
                    ) >= lvl(old(self).locations@[l2].accesses@[tag as int].max_foreign_access)
                        && s_exposed_as(
                        old(self).nodes@,
                        old(self).locations@[l2].allowed@,
                        tag as int,
                    ) != old(self).locations@[l2].allowed@[tag as int]) ==> forall|j: int|
                        0 <= j < ns1[tag as int].children@.len() ==> self.locations@[l2].accesses@[
                            (#[trigger] ns1[tag as int].children@[j]) as int
                        ].max_foreign_access == level_max(
                            old(self).locations@[l2].allowed@[tag as int],
                            old(self).locations@[l2].accesses@[tag as int].max_foreign_access,
                        )),
                forall|l2: int|
                    #![trigger self.locations@[l2]]
                    0 <= l2 < l ==> ((parent_with_sole_reader(
                        ns1,
                        old(self).locations@[l2].allowed@,
                        old(self).locations@[l2].accesses@,
                        tag as int,
                    ) && lvl(
                        spec_max_child_access(
                            old(self).locations@[l2].accesses@[tag as int],
                            s_exposed_as(
                                old(self).nodes@,
                                old(self).locations@[l2].allowed@,
                                tag as int,
                            ),
                        ),
                    ) == 0 && lvl(
                        spec_max_child_access(
                            old(self).locations@[l2].accesses@[tag as int],
                            old(self).locations@[l2].allowed@[tag as int],
                        ),
                    ) == 1) ==> (ns1[tag as int].parent matches Some(p0) ==> forall|j: int|
                        0 <= j < ns1[p0 as int].children@.len() && (#[trigger] ns1[
                            p0 as int
                        ].children@[j]) != tag && lvl(
                            spec_max_child_access(
                                old(self).locations@[l2].accesses@[
                                    ns1[p0 as int].children@[j] as int
                                ],
                                s_exposed_as(
                                    ns1,
                                    old(self).locations@[l2].allowed@,
                                    ns1[p0 as int].children@[j] as int,
                                ),
                            ),
                        ) >= 1 ==> self.locations@[l2].accesses@[
                            ns1[p0 as int].children@[j] as int
                        ].max_foreign_access == spec_max_child_access(
                            old(self).locations@[l2].accesses@[tag as int],
                            old(self).locations@[l2].allowed@[tag as int],
                        ))),
            decreases num_locations - l,
        {
            let ghost locs0 = self.locations@;
            let loc = self.locations.remove(l);
            let LocationData { allowed, accesses: mut recs } = loc;
            let access_type = allowed[tag];
            // The level this node's exposure granted here until now.
            let old_level = if was_exposed {
                allowed[tag]
            } else {
                WildcardAccessLevel::NoAccess
            };
            proof {
                // The location still carries records for which the counter
                // equations held with the node's exposure at its previous
                // level; crediting the now-exposed node at that level names
                // one and the same state.
                let alx = allowed@.update(tag as int, old_level);
                let nsx = nodes_with_exposed(ns1, tag as int);
                assert(nsx =~= ns1);
                assert(old_level == s_exposed_as(old(self).nodes@, allowed@, tag as int));
                assert(counters_ok(old(self).nodes@, allowed@, recs@));
                if was_exposed {
                    assert(alx =~= allowed@);
                    assert(counters_ok(nsx, alx, recs@));
                } else {
                    assert forall|i: int| 0 <= i < old(self).nodes@.len() implies (#[trigger] nsx[
                        i
                    ]).children@ == old(self).nodes@[i].children@ by {};
                    assert forall|i: int|
                        0 <= i < old(self).nodes@.len() implies #[trigger] s_exposed_as(
                        nsx,
                        alx,
                        i,
                    ) == s_exposed_as(old(self).nodes@, allowed@, i) by {};
                    lemma_counters_ok_congruent(old(self).nodes@, allowed@, nsx, alx, recs@);
                }
            }
            WildcardAccessTracking::update_exposure(
                tag,
                old_level,
                access_type,
                &self.nodes,
                &allowed,
                &mut recs,
            );
            self.locations.insert(l, LocationData { allowed, accesses: recs });
            proof {
                assert(self.locations@ =~= locs0.update(l as int, self.locations@[l as int]));
            }
            l += 1;
        }
    }
}

/// Executable form of [`s_exposed_as`].
pub fn exposed_as_of(
    nodes: &Vec<Node>,
    allowed: &Vec<WildcardAccessLevel>,
    i: usize,
) -> (r: WildcardAccessLevel)
    requires
        i < nodes@.len(),
        allowed@.len() == nodes@.len(),
    ensures
        r == s_exposed_as(nodes@, allowed@, i as int),
{
    if nodes[i].is_exposed {
        allowed[i]
    } else {
        WildcardAccessLevel::NoAccess
    }
}

} // verus!
