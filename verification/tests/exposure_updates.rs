use wildcard_tracking::access::WildcardAccessLevel;
use wildcard_tracking::access::WildcardAccessRelatedness;
use wildcard_tracking::tracking::WildcardAccessTracking;
use wildcard_tracking::tree::Tree;

use WildcardAccessLevel::{NoAccess, Read, Write};

/// The oracle: every location of the tree satisfies the invariant
/// equations exactly.
fn all_consistent(t: &Tree) -> bool {
    t.locations.iter().all(|loc| {
        WildcardAccessTracking::verify_consistency(&t.nodes, &loc.allowed, &loc.accesses)
    })
}

/// Mark `node` as allowing its descendants `level` at location 0, then
/// expose it, driving one incremental update per location.
fn expose_at(t: &mut Tree, node: usize, level: WildcardAccessLevel) {
    t.set_allowed(0, node, level);
    t.expose_tag(node);
}

/// Root `R` (0) with children `A` and `B`; `expose(A)` grants `Write`.
fn two_sibling_tree_after_write_exposure() -> (Tree, usize, usize) {
    let mut t = Tree::new(1);
    let a = t.add_child(0);
    let b = t.add_child(0);
    expose_at(&mut t, a, Write);
    (t, a, b)
}

#[test]
fn expose_write_reaches_single_sibling() {
    let (t, a, b) = two_sibling_tree_after_write_exposure();
    let loc = &t.locations[0];
    // B is directly determined by A's exposure.
    assert_eq!(loc.accesses[b].max_foreign_access, Write);
    // The root now sees one writing (hence also reading) child subtree.
    assert_eq!(loc.accesses[0].child_writes, 1);
    assert_eq!(loc.accesses[0].child_reads, 1);
    // Nothing outside the tree can reach the root or A.
    assert_eq!(loc.accesses[0].max_foreign_access, NoAccess);
    assert_eq!(loc.accesses[a].max_foreign_access, NoAccess);
    assert!(all_consistent(&t));
}

#[test]
fn expose_read_on_second_sibling_keeps_write_dominant() {
    let (mut t, a, b) = two_sibling_tree_after_write_exposure();
    expose_at(&mut t, b, Read);
    let loc = &t.locations[0];
    assert_eq!(loc.accesses[0].child_reads, 2);
    assert_eq!(loc.accesses[0].child_writes, 1);
    // A's foreign level is not downgraded by the weaker exposure, but B's
    // read is visible to it.
    assert_eq!(loc.accesses[a].max_foreign_access, Read);
    assert_eq!(loc.accesses[b].max_foreign_access, Write);
    assert!(all_consistent(&t));
}

#[test]
fn derived_child_is_immediately_consistent() {
    let (mut t, a, _b) = two_sibling_tree_after_write_exposure();
    let c = t.add_child(a);
    let loc = &t.locations[0];
    // A is exposed at Write, so everything is foreign to its new child at
    // Write, with no propagation pass.
    assert_eq!(loc.accesses[c].max_foreign_access, Write);
    assert_eq!(loc.accesses[c].child_reads, 0);
    assert_eq!(loc.accesses[c].child_writes, 0);
    assert!(all_consistent(&t));
}

#[test]
fn derived_child_sees_parents_foreign_region() {
    let (mut t, _a, b) = two_sibling_tree_after_write_exposure();
    // B is unexposed but has foreign level Write; a child of B inherits it.
    let c = t.add_child(b);
    assert_eq!(t.locations[0].accesses[c].max_foreign_access, Write);
    assert!(all_consistent(&t));
}

#[test]
fn equal_levels_are_a_no_op() {
    let (mut t, a, _b) = two_sibling_tree_after_write_exposure();
    let before: Vec<WildcardAccessTracking> = t.locations[0].accesses.clone();
    let loc = &mut t.locations[0];
    WildcardAccessTracking::update_exposure(
        a,
        Write,
        Write,
        &t.nodes,
        &loc.allowed,
        &mut loc.accesses,
    );
    assert_eq!(t.locations[0].accesses, before);
}

#[test]
fn repeated_exposure_at_unchanged_level_changes_no_record() {
    let (mut t, a, _b) = two_sibling_tree_after_write_exposure();
    let before: Vec<WildcardAccessTracking> = t.locations[0].accesses.clone();
    t.expose_tag(a);
    assert_eq!(t.locations[0].accesses, before);
    assert!(all_consistent(&t));
}

#[test]
fn write_to_sibling_is_foreign_only() {
    let (mut t, _a, b) = two_sibling_tree_after_write_exposure();
    expose_at(&mut t, b, Read);
    // Only A's exposure reaches Write, and A is foreign to B.
    assert_eq!(
        t.locations[0].accesses[b].write_access_relatedness(NoAccess),
        Some(WildcardAccessRelatedness::ForeignAccess)
    );
    // A read through B could come from B's own exposure as well.
    assert_eq!(
        t.locations[0].accesses[b].read_access_relatedness(Read),
        Some(WildcardAccessRelatedness::EitherAccess)
    );
}

#[test]
fn upgrade_never_lowers_any_level() {
    let mut t = Tree::new(1);
    let a = t.add_child(0);
    let b = t.add_child(0);
    let c = t.add_child(a);
    let d = t.add_child(c);
    expose_at(&mut t, b, Read);
    expose_at(&mut t, c, Read);
    assert!(all_consistent(&t));
    let before: Vec<WildcardAccessTracking> = t.locations[0].accesses.clone();

    // Upgrade c's exposure from Read to Write.
    t.set_allowed(0, c, Write);
    let loc = &mut t.locations[0];
    WildcardAccessTracking::update_exposure(
        c,
        Read,
        Write,
        &t.nodes,
        &loc.allowed,
        &mut loc.accesses,
    );
    assert!(all_consistent(&t));
    let after = &t.locations[0].accesses;
    for i in 0..before.len() {
        assert!(after[i].max_foreign_access >= before[i].max_foreign_access);
    }
    assert_eq!(t.locations[0].accesses[d].max_foreign_access, Write);
    let _ = (a, d);
}

#[test]
fn downgrade_never_raises_any_level() {
    let mut t = Tree::new(1);
    let a = t.add_child(0);
    let b = t.add_child(0);
    let c = t.add_child(a);
    expose_at(&mut t, a, Write);
    expose_at(&mut t, b, Read);
    assert!(all_consistent(&t));
    let before: Vec<WildcardAccessTracking> = t.locations[0].accesses.clone();

    // Downgrade a's exposure from Write to Read.
    t.set_allowed(0, a, Read);
    let loc = &mut t.locations[0];
    WildcardAccessTracking::update_exposure(
        a,
        Write,
        Read,
        &t.nodes,
        &loc.allowed,
        &mut loc.accesses,
    );
    assert!(all_consistent(&t));
    let after = &t.locations[0].accesses;
    for i in 0..before.len() {
        assert!(after[i].max_foreign_access <= before[i].max_foreign_access);
    }
    // B and C now see only a Read from A's subtree.
    assert_eq!(after[b].max_foreign_access, Read);
    assert_eq!(after[c].max_foreign_access, Read);
    assert_eq!(after[0].child_writes, 0);
    assert_eq!(after[0].child_reads, 2);
}

#[test]
fn downgrade_to_no_access_clears_counters() {
    let mut t = Tree::new(1);
    let a = t.add_child(0);
    let b = t.add_child(0);
    expose_at(&mut t, a, Write);
    t.set_allowed(0, a, NoAccess);
    let loc = &mut t.locations[0];
    WildcardAccessTracking::update_exposure(
        a,
        Write,
        NoAccess,
        &t.nodes,
        &loc.allowed,
        &mut loc.accesses,
    );
    assert!(all_consistent(&t));
    let after = &t.locations[0].accesses;
    assert_eq!(after[0].child_writes, 0);
    assert_eq!(after[0].child_reads, 0);
    assert_eq!(after[b].max_foreign_access, NoAccess);
}

#[test]
fn two_strong_siblings_keep_each_other_foreign() {
    let mut t = Tree::new(1);
    let a = t.add_child(0);
    let b = t.add_child(0);
    let c = t.add_child(0);
    expose_at(&mut t, a, Write);
    expose_at(&mut t, b, Write);
    // A third sibling exposure cannot change what A and B already see.
    expose_at(&mut t, c, Read);
    let loc = &t.locations[0];
    assert_eq!(loc.accesses[a].max_foreign_access, Write);
    assert_eq!(loc.accesses[b].max_foreign_access, Write);
    assert_eq!(loc.accesses[c].max_foreign_access, Write);
    assert_eq!(loc.accesses[0].child_writes, 2);
    assert_eq!(loc.accesses[0].child_reads, 3);
    assert!(all_consistent(&t));
}

#[test]
fn exposure_propagates_down_other_branches() {
    let mut t = Tree::new(1);
    let a = t.add_child(0);
    let b = t.add_child(0);
    let ba = t.add_child(b);
    let baa = t.add_child(ba);
    expose_at(&mut t, a, Write);
    let loc = &t.locations[0];
    // The whole other branch sees the foreign Write.
    assert_eq!(loc.accesses[b].max_foreign_access, Write);
    assert_eq!(loc.accesses[ba].max_foreign_access, Write);
    assert_eq!(loc.accesses[baa].max_foreign_access, Write);
    assert!(all_consistent(&t));
}

#[test]
fn exposure_stops_at_dominating_exposure() {
    let mut t = Tree::new(1);
    let a = t.add_child(0);
    let b = t.add_child(0);
    let ba = t.add_child(b);
    expose_at(&mut t, b, Write);
    assert!(all_consistent(&t));
    // A weaker foreign level does not dip below b's own exposure.
    expose_at(&mut t, a, Read);
    let loc = &t.locations[0];
    assert_eq!(loc.accesses[ba].max_foreign_access, Write);
    assert_eq!(loc.accesses[b].max_foreign_access, Read);
    assert!(all_consistent(&t));
}

#[test]
fn root_exposure_has_no_ancestors_to_walk() {
    let mut t = Tree::new(1);
    let a = t.add_child(0);
    expose_at(&mut t, 0, Write);
    let loc = &t.locations[0];
    assert_eq!(loc.accesses[0].max_foreign_access, NoAccess);
    assert_eq!(loc.accesses[a].max_foreign_access, Write);
    assert!(all_consistent(&t));
}

#[test]
fn update_exposure_checked_reports_consistency() {
    let mut t = Tree::new(1);
    let a = t.add_child(0);
    let _b = t.add_child(0);
    t.set_allowed(0, a, Write);
    {
        let nodes = &mut t.nodes;
        nodes[a].is_exposed = true;
    }
    let loc = &mut t.locations[0];
    let ok = WildcardAccessTracking::update_exposure_checked(
        a,
        NoAccess,
        Write,
        &t.nodes,
        &loc.allowed,
        &mut loc.accesses,
    );
    assert!(ok);
}

#[test]
fn every_location_is_updated_by_one_exposure() {
    let mut t = Tree::new(2);
    let a = t.add_child(0);
    let b = t.add_child(0);
    // The same pointer grants different strengths at the two locations.
    t.set_allowed(0, a, Write);
    t.set_allowed(1, a, Read);
    t.expose_tag(a);
    assert_eq!(t.locations[0].accesses[b].max_foreign_access, Write);
    assert_eq!(t.locations[1].accesses[b].max_foreign_access, Read);
    assert_eq!(t.locations[0].accesses[0].child_writes, 1);
    assert_eq!(t.locations[1].accesses[0].child_writes, 0);
    assert_eq!(t.locations[1].accesses[0].child_reads, 1);
    assert!(all_consistent(&t));
}

#[test]
fn exposing_ancestor_of_exposed_child_stays_consistent() {
    let mut t = Tree::new(1);
    let a = t.add_child(0);
    let g = t.add_child(a);
    expose_at(&mut t, g, Write);
    assert!(all_consistent(&t));
    // a's subtree already reached Write through g before a's own exposure.
    expose_at(&mut t, a, Write);
    assert!(all_consistent(&t));
    assert_eq!(t.locations[0].accesses[0].child_writes, 1);
    assert_eq!(t.locations[0].accesses[0].child_reads, 1);
    assert_eq!(t.locations[0].accesses[g].max_foreign_access, Write);
}

#[test]
fn dominated_exposure_touches_no_ancestor() {
    let mut t = Tree::new(1);
    let a = t.add_child(0);
    let b = t.add_child(0);
    let g = t.add_child(a);
    expose_at(&mut t, g, Write);
    assert!(all_consistent(&t));
    // a's subtree already reaches Write via g, so exposing a at Read moves
    // a's max_child_access not at all: the root's counters and the
    // sibling's foreign level must stay put, while a's own child now sees
    // the Read exposure.
    expose_at(&mut t, a, Read);
    let loc = &t.locations[0];
    assert_eq!(loc.accesses[0].child_writes, 1);
    assert_eq!(loc.accesses[0].child_reads, 1);
    assert_eq!(loc.accesses[b].max_foreign_access, Write);
    assert_eq!(loc.accesses[g].max_foreign_access, Read);
    assert!(all_consistent(&t));
}

#[test]
fn propagation_descends_through_unexposed_nodes() {
    let mut t = Tree::new(1);
    let a = t.add_child(0);
    let b = t.add_child(0);
    let c = t.add_child(b);
    expose_at(&mut t, c, Write);
    assert!(all_consistent(&t));
    // a's exposure must reach b, but stop short of raising anything under
    // b beyond what b's own subtree dictates.
    expose_at(&mut t, a, Read);
    let loc = &t.locations[0];
    assert_eq!(loc.accesses[b].max_foreign_access, Read);
    assert_eq!(loc.accesses[c].max_foreign_access, Read);
    assert_eq!(loc.accesses[a].max_foreign_access, Write);
    assert_eq!(loc.accesses[0].child_reads, 2);
    assert_eq!(loc.accesses[0].child_writes, 1);
    assert!(all_consistent(&t));
}

/// Downgrade the exposure of `node` at location 0 to `new_level`.
fn downgrade_at(t: &mut Tree, node: usize, new_level: WildcardAccessLevel) {
    let old_level = t.locations[0].allowed[node];
    t.set_allowed(0, node, new_level);
    let loc = &mut t.locations[0];
    WildcardAccessTracking::update_exposure(
        node,
        old_level,
        new_level,
        &t.nodes,
        &loc.allowed,
        &mut loc.accesses,
    );
}

#[test]
fn downgrade_past_read_keeps_weaker_sibling_visible() {
    // A Write exposure goes all the way to NoAccess while a Read-exposed
    // sibling stays: the third sibling must still see that Read.
    let mut t = Tree::new(1);
    let a = t.add_child(0);
    let b = t.add_child(0);
    let c = t.add_child(0);
    expose_at(&mut t, a, Write);
    expose_at(&mut t, b, Read);
    assert!(all_consistent(&t));
    downgrade_at(&mut t, a, NoAccess);
    let loc = &t.locations[0];
    assert_eq!(loc.accesses[c].max_foreign_access, Read);
    assert_eq!(loc.accesses[b].max_foreign_access, NoAccess);
    assert_eq!(loc.accesses[a].max_foreign_access, Read);
    assert!(all_consistent(&t));
}

#[test]
fn downgrade_does_not_misattribute_the_dominant_sibling() {
    // Two Write exposures and one Read: downgrading one Write must leave
    // the Read-exposed sibling dominated by the remaining Write.
    let mut t = Tree::new(1);
    let a = t.add_child(0);
    let b = t.add_child(0);
    let x = t.add_child(0);
    expose_at(&mut t, a, Write);
    expose_at(&mut t, b, Read);
    expose_at(&mut t, x, Write);
    assert!(all_consistent(&t));
    downgrade_at(&mut t, a, Read);
    let loc = &t.locations[0];
    assert_eq!(loc.accesses[b].max_foreign_access, Write);
    assert_eq!(loc.accesses[x].max_foreign_access, Read);
    assert_eq!(loc.accesses[a].max_foreign_access, Write);
    assert!(all_consistent(&t));
}

#[test]
fn downgrade_leaves_read_floor_under_remaining_writer() {
    // Downgrading one of two Write exposures to NoAccess: the surviving
    // writer must still see the Read-exposed sibling.
    let mut t = Tree::new(1);
    let a = t.add_child(0);
    let x = t.add_child(0);
    let b = t.add_child(0);
    expose_at(&mut t, a, Write);
    expose_at(&mut t, x, Write);
    expose_at(&mut t, b, Read);
    assert!(all_consistent(&t));
    downgrade_at(&mut t, a, NoAccess);
    let loc = &t.locations[0];
    assert_eq!(loc.accesses[x].max_foreign_access, Read);
    assert_eq!(loc.accesses[b].max_foreign_access, Write);
    assert!(all_consistent(&t));
}

#[test]
fn mixed_event_stress_matches_oracle_throughout() {
    // A fixed linear-congruential stream drives growth, exposures and
    // re-grades over two locations; the incremental state must satisfy
    // the equations after every single event.
    let mut seed: u64 = 0x2545_f491;
    let mut next = move || {
        seed = seed.wrapping_mul(6364136223846793005).wrapping_add(1442695040888963407);
        (seed >> 33) as usize
    };
    let levels = [NoAccess, Read, Write];
    let mut t = Tree::new(2);
    for _step in 0..60usize {
        let n = t.nodes.len();
        match next() % 3 {
            0 => {
                let parent = next() % n;
                t.add_child(parent);
            }
            1 => {
                let target = next() % n;
                if !t.nodes[target].is_exposed {
                    let l0 = levels[next() % 3];
                    let l1 = levels[next() % 3];
                    t.set_allowed(0, target, l0);
                    t.set_allowed(1, target, l1);
                    t.expose_tag(target);
                }
            }
            _ => {
                let target = next() % n;
                if t.nodes[target].is_exposed {
                    let lidx = next() % 2;
                    let new_level = levels[next() % 3];
                    let old_level = t.locations[lidx].allowed[target];
                    t.set_allowed(lidx, target, new_level);
                    let loc = &mut t.locations[lidx];
                    WildcardAccessTracking::update_exposure(
                        target,
                        old_level,
                        new_level,
                        &t.nodes,
                        &loc.allowed,
                        &mut loc.accesses,
                    );
                }
            }
        }
        assert!(all_consistent(&t));
    }
    assert!(t.nodes.len() > 10);
}

#[test]
fn long_event_sequence_matches_oracle_throughout() {
    let mut t = Tree::new(1);
    let mut nodes: Vec<usize> = vec![0];
    // Grow a bushy tree, exposing and re-grading as it grows; the
    // incrementally maintained state must match the recomputed equations
    // after every single event.
    let levels = [Read, Write, NoAccess, Write, Read, Write, NoAccess, Read];
    for step in 0..8usize {
        let parent = nodes[(step * 5 + 3) % nodes.len()];
        let fresh = t.add_child(parent);
        nodes.push(fresh);
        assert!(all_consistent(&t));

        let target = nodes[(step * 7 + 1) % nodes.len()];
        let new_level = levels[step];
        let old_level = if t.nodes[target].is_exposed {
            t.locations[0].allowed[target]
        } else {
            NoAccess
        };
        t.set_allowed(0, target, new_level);
        {
            let marked = &mut t.nodes;
            marked[target].is_exposed = true;
        }
        let loc = &mut t.locations[0];
        WildcardAccessTracking::update_exposure(
            target,
            old_level,
            new_level,
            &t.nodes,
            &loc.allowed,
            &mut loc.accesses,
        );
        assert!(all_consistent(&t));
    }
}
