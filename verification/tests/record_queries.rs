use wildcard_tracking::access::AccessKind;
use wildcard_tracking::access::AccessRelatedness;
use wildcard_tracking::access::WildcardAccessLevel;
use wildcard_tracking::access::WildcardAccessRelatedness;
use wildcard_tracking::tracking::WildcardAccessTracking;

use WildcardAccessLevel::{NoAccess, Read, Write};
use WildcardAccessRelatedness::{ChildAccess, EitherAccess, ForeignAccess};

fn record(
    child_writes: u16,
    child_reads: u16,
    max_foreign_access: WildcardAccessLevel,
) -> WildcardAccessTracking {
    WildcardAccessTracking { child_writes, child_reads, max_foreign_access }
}

#[test]
fn test_order() {
    // The algorithm depends on exactly this order.
    assert!(NoAccess < Read);
    assert!(Read < Write);
    assert_eq!(NoAccess.rank(), 0);
    assert_eq!(Read.rank(), 1);
    assert_eq!(Write.rank(), 2);
}

#[test]
fn test_max_level() {
    assert_eq!(NoAccess.max_level(Read), Read);
    assert_eq!(Write.max_level(Read), Write);
    assert_eq!(Read.max_level(Read), Read);
    assert_eq!(NoAccess.max_level(NoAccess), NoAccess);
}

#[test]
fn test_default_level_is_no_access() {
    assert_eq!(WildcardAccessLevel::default(), NoAccess);
}

#[test]
fn test_default_record_is_all_zero() {
    let r = WildcardAccessTracking::default();
    assert_eq!(r.child_writes, 0);
    assert_eq!(r.child_reads, 0);
    assert_eq!(r.max_foreign_access, NoAccess);
}

#[test]
fn test_max_child_access_from_counters() {
    assert_eq!(record(0, 0, NoAccess).max_child_access(NoAccess), NoAccess);
    assert_eq!(record(0, 1, NoAccess).max_child_access(NoAccess), Read);
    assert_eq!(record(1, 1, NoAccess).max_child_access(NoAccess), Write);
    // The node's own exposure level joins in.
    assert_eq!(record(0, 0, NoAccess).max_child_access(Write), Write);
    assert_eq!(record(0, 1, NoAccess).max_child_access(Write), Write);
    // The foreign level does not contribute to the child side.
    assert_eq!(record(0, 0, Write).max_child_access(NoAccess), NoAccess);
}

#[test]
fn test_read_relatedness_all_cases() {
    assert_eq!(record(0, 0, NoAccess).read_access_relatedness(NoAccess), None);
    assert_eq!(record(0, 0, Read).read_access_relatedness(NoAccess), Some(ForeignAccess));
    assert_eq!(record(0, 0, Write).read_access_relatedness(NoAccess), Some(ForeignAccess));
    assert_eq!(record(0, 1, NoAccess).read_access_relatedness(NoAccess), Some(ChildAccess));
    assert_eq!(record(0, 0, NoAccess).read_access_relatedness(Read), Some(ChildAccess));
    assert_eq!(record(0, 1, Read).read_access_relatedness(NoAccess), Some(EitherAccess));
    assert_eq!(record(0, 0, Write).read_access_relatedness(Write), Some(EitherAccess));
}

#[test]
fn test_write_relatedness_all_cases() {
    assert_eq!(record(0, 0, NoAccess).write_access_relatedness(NoAccess), None);
    // A mere Read on either side does not make a write possible.
    assert_eq!(record(0, 5, Read).write_access_relatedness(Read), None);
    assert_eq!(record(0, 0, Write).write_access_relatedness(NoAccess), Some(ForeignAccess));
    assert_eq!(record(1, 1, NoAccess).write_access_relatedness(NoAccess), Some(ChildAccess));
    assert_eq!(record(0, 0, NoAccess).write_access_relatedness(Write), Some(ChildAccess));
    assert_eq!(record(1, 1, Write).write_access_relatedness(NoAccess), Some(EitherAccess));
}

#[test]
fn test_access_relatedness_dispatch() {
    let r = record(0, 1, Read);
    assert_eq!(r.access_relatedness(AccessKind::Read, NoAccess), Some(EitherAccess));
    assert_eq!(r.access_relatedness(AccessKind::Write, NoAccess), None);
}

#[test]
fn test_to_relatedness() {
    assert_eq!(ChildAccess.to_relatedness(), Some(AccessRelatedness::WildcardChildAccess));
    assert_eq!(ForeignAccess.to_relatedness(), Some(AccessRelatedness::WildcardForeignAccess));
    assert_eq!(EitherAccess.to_relatedness(), None);
}

#[test]
fn test_get_new_child() {
    // The parent's foreign region and its subtree are both foreign to a
    // new child.
    let parent = record(1, 2, Read);
    let child = parent.get_new_child(NoAccess);
    assert_eq!(child.child_writes, 0);
    assert_eq!(child.child_reads, 0);
    assert_eq!(child.max_foreign_access, Write);

    let parent = record(0, 1, NoAccess);
    assert_eq!(parent.get_new_child(NoAccess).max_foreign_access, Read);
    assert_eq!(parent.get_new_child(Write).max_foreign_access, Write);
    assert_eq!(record(0, 0, NoAccess).get_new_child(NoAccess).max_foreign_access, NoAccess);
}
