use vstd::prelude::*;

use crate::access::AccessKind;
use crate::access::WildcardAccessLevel;
use crate::access::WildcardAccessRelatedness;
use crate::access::level_max;
use crate::access::lvl;

verus! {

/// Per-location, per-node aggregate: where, relative to this node, exposed
/// pointers are and what access they could permit.
///
/// Designed to be completely determined by the node's parent, siblings and
/// direct children; the exact equations are in [`crate::consistency`].
#[derive(Clone, Copy, Debug, PartialEq, Eq, Structural)]
pub struct WildcardAccessTracking {
    /// How many of this node's direct children have `max_child_access == Write`.
    pub child_writes: u16,
    /// How many of this node's direct children have `max_child_access >= Read`.
    pub child_reads: u16,
    /// The maximum access level that could happen from an exposed pointer
    /// that is foreign to this node: the `max` of the parent's
    /// `max_foreign_access`, the parent's own exposure level and the
    /// siblings' `max_child_access`.
    pub max_foreign_access: WildcardAccessLevel,
}

impl Default for WildcardAccessTracking {
    fn default() -> (r: Self)
        ensures
            r == WildcardAccessTracking::empty(),
    {
        WildcardAccessTracking {
            child_writes: 0,
            child_reads: 0,
            max_foreign_access: WildcardAccessLevel::NoAccess,
        }
    }
}

/// The maximum access level that could happen from an exposed pointer in
/// this node's subtree, given the node's own exposure level `exposed_as`.
pub open spec fn spec_max_child_access(
    t: WildcardAccessTracking,
    exposed_as: WildcardAccessLevel,
) -> WildcardAccessLevel {
    level_max(
        exposed_as,
        if t.child_writes > 0 {
            WildcardAccessLevel::Write
        } else if t.child_reads > 0 {
            WildcardAccessLevel::Read
        } else {
            WildcardAccessLevel::NoAccess
        },
    )
}

/// Where a read through an exposed pointer could have originated, relative
/// to a node with record `t` and exposure level `exposed_as`: a read is
/// possible from any level `>= Read` on either side.
pub open spec fn spec_read_relatedness(
    t: WildcardAccessTracking,
    exposed_as: WildcardAccessLevel,
) -> Option<WildcardAccessRelatedness> {
    let has_foreign = lvl(t.max_foreign_access) >= lvl(WildcardAccessLevel::Read);
    let has_child = t.child_reads > 0 || lvl(exposed_as) >= lvl(WildcardAccessLevel::Read);
    if has_foreign && has_child {
        Some(WildcardAccessRelatedness::EitherAccess)
    } else if has_foreign {
        Some(WildcardAccessRelatedness::ForeignAccess)
    } else if has_child {
        Some(WildcardAccessRelatedness::ChildAccess)
    } else {
        None
    }
}

/// Where a write through an exposed pointer could have originated: only the
/// exact level `Write` makes a write possible.
pub open spec fn spec_write_relatedness(
    t: WildcardAccessTracking,
    exposed_as: WildcardAccessLevel,
) -> Option<WildcardAccessRelatedness> {
    let has_foreign = t.max_foreign_access == WildcardAccessLevel::Write;
    let has_child = t.child_writes > 0 || exposed_as == WildcardAccessLevel::Write;
    if has_foreign && has_child {
        Some(WildcardAccessRelatedness::EitherAccess)
    } else if has_foreign {
        Some(WildcardAccessRelatedness::ForeignAccess)
    } else if has_child {
        Some(WildcardAccessRelatedness::ChildAccess)
    } else {
        None
    }
}

impl WildcardAccessTracking {
    /// The all-zero record: no child can access anything, nothing foreign
    /// can access anything.  Records are lazily created in this state.
    pub open spec fn empty() -> WildcardAccessTracking {
        WildcardAccessTracking {
            child_writes: 0,
            child_reads: 0,
            max_foreign_access: WildcardAccessLevel::NoAccess,
        }
    }

    /// The maximum access level that could happen from an exposed pointer
    /// that is a child of this node.
    pub fn max_child_access(&self, exposed_as: WildcardAccessLevel) -> (r: WildcardAccessLevel)
        ensures
            r == spec_max_child_access(*self, exposed_as),
    {
        exposed_as.max_level(
            if self.child_writes > 0 {
                WildcardAccessLevel::Write
            } else if self.child_reads > 0 {
                WildcardAccessLevel::Read
            } else {
                WildcardAccessLevel::NoAccess
            },
        )
    }

    /// From where, relative to this node, an access of kind `kind` could
    /// happen; `None` means no exposed pointer anywhere reaches that level.
    pub fn access_relatedness(
        &self,
        kind: AccessKind,
        exposed_as: WildcardAccessLevel,
    ) -> (r: Option<WildcardAccessRelatedness>)
        ensures
            r == match kind {
                AccessKind::Read => spec_read_relatedness(*self, exposed_as),
                AccessKind::Write => spec_write_relatedness(*self, exposed_as),
            },
    {
        match kind {
            AccessKind::Read => self.read_access_relatedness(exposed_as),
            AccessKind::Write => self.write_access_relatedness(exposed_as),
        }
    }

    /// From where, relative to this node, a read access could happen.
    pub fn read_access_relatedness(&self, exposed_as: WildcardAccessLevel) -> (r: Option<
        WildcardAccessRelatedness,
    >)
        ensures
            r == spec_read_relatedness(*self, exposed_as),
    {
        let has_foreign = self.max_foreign_access.rank() >= 1;
        let has_child = self.child_reads > 0 || exposed_as.rank() >= 1;
        match (has_foreign, has_child) {
            (true, true) => Some(WildcardAccessRelatedness::EitherAccess),
            (true, false) => Some(WildcardAccessRelatedness::ForeignAccess),
            (false, true) => Some(WildcardAccessRelatedness::ChildAccess),
            (false, false) => None,
        }
    }

    /// From where, relative to this node, a write access could happen.
    pub fn write_access_relatedness(&self, exposed_as: WildcardAccessLevel) -> (r: Option<
        WildcardAccessRelatedness,
    >)
        ensures
            r == spec_write_relatedness(*self, exposed_as),
    {
        let has_foreign = self.max_foreign_access == WildcardAccessLevel::Write;
        let has_child = self.child_writes > 0 || exposed_as == WildcardAccessLevel::Write;
        match (has_foreign, has_child) {
            (true, true) => Some(WildcardAccessRelatedness::EitherAccess),
            (true, false) => Some(WildcardAccessRelatedness::ForeignAccess),
            (false, true) => Some(WildcardAccessRelatedness::ChildAccess),
            (false, false) => None,
        }
    }

    /// The record for a brand-new child of a node with this record and
    /// exposure level `exposed_as`: the child has no children of its own,
    /// and everything the parent could see or do is foreign to it.
    pub fn get_new_child(&self, exposed_as: WildcardAccessLevel) -> (r: Self)
        ensures
            r.child_writes == 0,
            r.child_reads == 0,
            r.max_foreign_access == level_max(
                self.max_foreign_access,
                spec_max_child_access(*self, exposed_as),
            ),
    {
        Self {
            max_foreign_access: self.max_foreign_access.max_level(
                self.max_child_access(exposed_as),
            ),
            child_reads: 0,
            child_writes: 0,
        }
    }
}

} // verus!
